use rusty_taskflow::codegen::{
    decimal_string, flow_nodes, generate_module, normalize_for_concat, normalize_relative, normalize_stripped, render_flow_builder,
    sanitize_ident, to_unix, topo_sort, FlowConfig, FlowFile, Node, ResolvedFlow, TaskConfig,
};

fn node(name: &str, deps: &[&str], output: &str, builder: &str, is_source: bool) -> Node {
    Node {
        name: name.to_string(),
        dependencies: deps.iter().map(|d| d.to_string()).collect(),
        output: output.to_string(),
        builder: builder.to_string(),
        is_source,
    }
}

fn task(name: &str, deps: &[&str], output: &str, builder: &str) -> TaskConfig {
    TaskConfig {
        name: name.to_string(),
        dependencies: deps.iter().map(|d| d.to_string()).collect(),
        output: output.to_string(),
        builder: builder.to_string(),
    }
}

fn mixed_fib_file() -> FlowFile {
    FlowFile {
        flow: FlowConfig {
            source: vec![task("FibInput", &[], "fib_n", "crate::config_tasks::FibInput::new()")],
            processor: vec![
                task("Fib", &["fib_n"], "fib_value", "crate::config_tasks::Fib::new()"),
                task("AsyncPersistFib", &["fib_value"], "persisted_fib", "crate::config_tasks::AsyncPersistFib::new()"),
            ],
            sink: task("DoubleSink", &["persisted_fib"], "mixed_fib_output", "crate::config_tasks::DoubleSink::new()"),
        },
    }
}

const MIXED_FIB_BUILDER: &str = "fn build_flow_0() -> (taskflow::tf::flow::Flow, taskflow::tf::flow::TaskId) {\n    let mut flow = taskflow::tf::flow::Flow::new();\n    let out_fib_n = flow.commit_source_task(\"FibInput\", crate::config_tasks::FibInput::new());\n    let out_fib_value = flow.commit_task(\"Fib\", crate::config_tasks::Fib::new()).with_dependencies(out_fib_n);\n    let out_persisted_fib = flow.commit_task(\"AsyncPersistFib\", crate::config_tasks::AsyncPersistFib::new()).with_dependencies(out_fib_value);\n    let out_mixed_fib_output = flow.commit_task(\"DoubleSink\", crate::config_tasks::DoubleSink::new()).with_dependencies(out_persisted_fib);\n    (flow, out_mixed_fib_output.id)\n}\n";

#[test]
fn to_unix_turns_backslashes() {
    assert_eq!(to_unix("configs\\flows\\a.toml"), "configs/flows/a.toml");
    assert_eq!(to_unix("/already/unix"), "/already/unix");
}

#[test]
fn sanitize_ident_cases() {
    assert_eq!(sanitize_ident("fib_n"), "out_fib_n");
    assert_eq!(sanitize_ident("Fib-Value"), "out_fib_value");
    assert_eq!(sanitize_ident("value2"), "out_value2_");
    assert_eq!(sanitize_ident("héllo"), "out_h_llo");
    assert_eq!(sanitize_ident(""), "out_");
}

#[test]
fn normalized_paths_start_with_a_slash() {
    assert_eq!(normalize_relative("configs\\a.toml"), "/configs/a.toml");
    assert_eq!(normalize_relative("/configs/a.toml"), "/configs/a.toml");
    assert_eq!(normalize_for_concat("/crate", "/crate/configs/a.toml"), "/configs/a.toml");
    assert_eq!(normalize_for_concat("/crate", "/elsewhere/a.toml"), "/elsewhere/a.toml");
    assert_eq!(normalize_for_concat("/crate", "configs/a.toml"), "/configs/a.toml");
}

#[test]
fn decimal_string_writes_digits() {
    assert_eq!(decimal_string(0), "0");
    assert_eq!(decimal_string(7), "7");
    assert_eq!(decimal_string(1203), "1203");
}

#[test]
fn topo_sort_orders_producers_first() {
    let nodes = vec![
        node("c", &["x", "y"], "z", "C", false),
        node("b", &["x"], "y", "B", false),
        node("a", &[], "x", "A", true),
    ];
    assert_eq!(topo_sort(&nodes).unwrap(), vec![2, 1, 0]);
    let nodes = vec![
        node("a", &[], "x", "A", true),
        node("b", &[], "w", "B", true),
        node("c", &["w", "x"], "z", "C", false),
    ];
    assert_eq!(topo_sort(&nodes).unwrap(), vec![0, 1, 2]);
}

#[test]
fn topo_sort_errors() {
    let dup = vec![node("a", &[], "x", "A", true), node("b", &[], "x", "B", true)];
    assert_eq!(topo_sort(&dup).unwrap_err(), "duplicate output 'x' for task 'b'");
    let unknown = vec![node("a", &[], "x", "A", true), node("b", &["nope"], "y", "B", false)];
    assert_eq!(topo_sort(&unknown).unwrap_err(), "task 'b' references unknown dependency output 'nope'");
    let cycle = vec![node("a", &["y"], "x", "A", false), node("b", &["x"], "y", "B", false)];
    assert_eq!(topo_sort(&cycle).unwrap_err(), "flow dependency graph has cycle");
    let both = vec![node("a", &["nope"], "x", "A", false), node("b", &[], "x", "B", true)];
    assert_eq!(topo_sort(&both).unwrap_err(), "duplicate output 'x' for task 'b'");
}

#[test]
fn flow_nodes_lists_sources_processors_sink() {
    let nodes = flow_nodes(mixed_fib_file());
    let names: Vec<&str> = nodes.iter().map(|n| n.name.as_str()).collect();
    assert_eq!(names, vec!["FibInput", "Fib", "AsyncPersistFib", "DoubleSink"]);
    assert!(nodes[0].is_source);
    assert!(!nodes[3].is_source);
}

#[test]
fn render_flow_builder_writes_the_builder() {
    let nodes = flow_nodes(mixed_fib_file());
    assert_eq!(render_flow_builder("build_flow_0", &nodes).unwrap(), MIXED_FIB_BUILDER);
}

#[test]
fn render_flow_builder_uses_tuples_for_several_dependencies() {
    let nodes = vec![
        node("FibSource1", &[], "left", "S1", true),
        node("FibSource2", &[], "right", "S2", true),
        node("Merger", &["left", "right"], "merged", "M", false),
    ];
    assert_eq!(
        render_flow_builder("f", &nodes).unwrap(),
        "fn f() -> (taskflow::tf::flow::Flow, taskflow::tf::flow::TaskId) {\n    let mut flow = taskflow::tf::flow::Flow::new();\n    let out_left = flow.commit_source_task(\"FibSource1\", S1);\n    let out_right = flow.commit_source_task(\"FibSource2\", S2);\n    let out_merged = flow.commit_task(\"Merger\", M).with_dependencies((out_left, out_right));\n    (flow, out_merged.id)\n}\n"
    );
}

#[test]
fn render_flow_builder_errors() {
    let empty = vec![node("a", &[], "x", "  \t", true)];
    assert_eq!(render_flow_builder("f", &empty).unwrap_err(), "task 'a' has empty builder expression");
    let source = vec![node("a", &["y"], "x", "A", true)];
    assert_eq!(render_flow_builder("f", &source).unwrap_err(), "source task 'a' must not have dependencies");
    let lonely = vec![node("a", &[], "x", "A", false)];
    assert_eq!(
        render_flow_builder("f", &lonely).unwrap_err(),
        "non-source task 'a' must have at least one dependency"
    );
    let cycle = vec![node("a", &["y"], "x", "A", false), node("b", &["x"], "y", "B", false)];
    assert_eq!(render_flow_builder("f", &cycle).unwrap_err(), "flow dependency graph has cycle");
}

#[test]
fn generate_module_lists_paths_and_builders() {
    let flows = vec![ResolvedFlow {
        display: "/crate/configs/mixed.toml".to_string(),
        path: "/crate/configs/mixed.toml".to_string(),
        file: mixed_fib_file(),
    }];
    let text = generate_module("/crate", flows).unwrap();
    let expected = String::from("// @generated by taskflow-build. Do not edit manually.\npub const GENERATED_FLOW_PATHS: &[&str] = &[\n    concat!(env!(\"CARGO_MANIFEST_DIR\"), \"/configs/mixed.toml\")\n];\n\npub fn build_flow_by_path(path: &str) -> Option<(taskflow::tf::flow::Flow, taskflow::tf::flow::TaskId)> {\n    match path {\n        concat!(env!(\"CARGO_MANIFEST_DIR\"), \"/configs/mixed.toml\") => Some(build_flow_0()),\n        _ => None,\n    }\n}\n\npub async fn run_flow_by_path(path: &str) -> Result<std::sync::Arc<dyn std::any::Any + Send + Sync>, taskflow::tf::errors::FlowError> {\n    let (mut flow, sink_id) = build_flow_by_path(path).ok_or_else(|| taskflow::tf::errors::FlowError::ConfigBuildError(format!(\"no flow configured for path {path}\")))?;\n    flow.run_with_sink_id(sink_id).await\n}\n\n")
        + MIXED_FIB_BUILDER
        + "\n";
    assert_eq!(text, expected);
}

#[test]
fn generate_module_reports_the_failing_flow() {
    let mut bad = mixed_fib_file();
    bad.flow.sink.dependencies = vec!["missing".to_string()];
    let flows = vec![
        ResolvedFlow { display: "ok.toml".to_string(), path: "/crate/ok.toml".to_string(), file: mixed_fib_file() },
        ResolvedFlow { display: "bad.toml".to_string(), path: "/crate/bad.toml".to_string(), file: bad },
    ];
    assert_eq!(
        generate_module("/crate", flows).unwrap_err(),
        "bad.toml: task 'DoubleSink' references unknown dependency output 'missing'"
    );
}

#[test]
fn empty_flow_names_task_zero_as_sink() {
    assert_eq!(
        render_flow_builder("e", &[]).unwrap(),
        "fn e() -> (taskflow::tf::flow::Flow, taskflow::tf::flow::TaskId) {\n    let mut flow = taskflow::tf::flow::Flow::new();\n    (flow, taskflow::tf::flow::TaskId(0))\n}\n"
    );
}

#[test]
fn stripping_the_manifest_directory_trims_trailing_separators() {
    assert_eq!(normalize_for_concat("/crate", "/crate/configs/"), "/configs");
}

#[test]
fn the_stripped_part_is_written_rooted_with_forward_slashes() {
    assert_eq!(normalize_stripped(Some("configs\\a.toml".to_string()), "/crate/configs/a.toml"), "/configs/a.toml");
    assert_eq!(normalize_stripped(None, "flows\\b.toml"), "/flows/b.toml");
}

#[test]
fn a_layer_lists_its_nodes_as_they_become_ready() {
    // Layer 0 is [a, b]; finishing a first readies d, then b readies c.
    let nodes = vec![
        node("a", &[], "oa", "A", true),
        node("b", &[], "ob", "B", true),
        node("c", &["ob"], "oc", "C", false),
        node("d", &["oa"], "od", "D", false),
    ];
    assert_eq!(topo_sort(&nodes).unwrap(), vec![0, 1, 3, 2]);
}

#[test]
fn plain_paths_outside_or_equal_to_the_manifest_directory() {
    assert_eq!(normalize_for_concat("/m", "/x/a.toml"), "/x/a.toml");
    assert_eq!(normalize_for_concat("/m", "rel/a.toml"), "/rel/a.toml");
    assert_eq!(normalize_for_concat("/m", "/m"), "/");
    assert_eq!(normalize_for_concat("/m", "/mx/a.toml"), "/mx/a.toml");
}
