use rusty_taskflow::task_macro::{
    build_destructure, build_inherent_call, build_input_type, build_task_impl, expand_task, find_run_fn,
    join_strings, parse_root_path, root_path_from_checks, parse_signature, ArgInfo, ErrorSpan, FnSig, ImplItemModel, MacroError, MetaArg,
    ParamModel, ParamType, ReceiverKind,
};

fn receiver() -> ParamModel {
    ParamModel::Receiver { by_ref: false, mutable: false }
}

fn shared(name: &str, ty: &str) -> ParamModel {
    let last = ty.rsplit("::").next().unwrap().to_string();
    ParamModel::Typed {
        ident: Some(name.to_string()),
        ty: ParamType::SharedRef { referent: ty.to_string(), last_segment: Some(last) },
    }
}

fn arg(name: &str, ty: &str) -> ArgInfo {
    ArgInfo { binding: name.to_string(), input_ty: ty.to_string(), needs_mut_binding: false }
}

fn method(name: &str, is_async: bool, params: Vec<ParamModel>, output: Option<&str>) -> ImplItemModel {
    ImplItemModel { name: name.to_string(), sig: Some(FnSig { is_async, params, output: output.map(|o| o.to_string()) }) }
}

fn error_of<T>(r: Result<T, MacroError>) -> (ErrorSpan, String) {
    match r {
        Ok(_) => panic!("expected an error"),
        Err(e) => (e.span, e.message),
    }
}

#[test]
fn parse_signature_splits_ctx_and_inputs() {
    let params = vec![receiver(), shared("ctx", "taskflow::FlowContext"), shared("v", "u64"), shared("w", "Vec<u8>")];
    match parse_signature(&params) {
        Ok((kind, has_ctx, args)) => {
            assert!(kind == ReceiverKind::Value);
            assert!(has_ctx);
            let seen: Vec<(String, String)> = args.iter().map(|a| (a.binding.clone(), a.input_ty.clone())).collect();
            assert_eq!(seen, vec![("v".to_string(), "u64".to_string()), ("w".to_string(), "Vec<u8>".to_string())]);
        }
        Err(_) => panic!("signature refused"),
    }
}

#[test]
fn parse_signature_ctx_only_in_first_position() {
    let params = vec![shared("v", "u64"), shared("ctx", "FlowContext")];
    match parse_signature(&params) {
        Ok((kind, has_ctx, args)) => {
            assert!(kind == ReceiverKind::Absent);
            assert!(!has_ctx);
            assert_eq!(args.len(), 2);
            assert_eq!(args[1].input_ty, "FlowContext");
        }
        Err(_) => panic!("signature refused"),
    }
}

#[test]
fn parse_signature_errors() {
    let unnamed = vec![receiver(), ParamModel::Typed { ident: None, ty: ParamType::Other }];
    let (span, msg) = error_of(parse_signature(&unnamed));
    assert!(span == ErrorSpan::Param(1));
    assert_eq!(msg, "task `run` args must be simple identifiers");
    let mutable = vec![ParamModel::Typed { ident: Some("a".to_string()), ty: ParamType::MutRef }];
    let (span, msg) = error_of(parse_signature(&mutable));
    assert!(span == ErrorSpan::Param(0));
    assert_eq!(msg, "task `run` args must use shared references `&T`; mutable refs `&mut T` are not supported");
    let by_value = vec![shared("a", "u8"), ParamModel::Typed { ident: Some("b".to_string()), ty: ParamType::Other }];
    let (span, msg) = error_of(parse_signature(&by_value));
    assert!(span == ErrorSpan::Param(1));
    assert_eq!(msg, "task `run` args must use shared references `&T`; by-value args are not supported");
}

#[test]
fn input_type_and_destructure() {
    assert_eq!(build_input_type(&vec![]), "()");
    assert_eq!(build_input_type(&vec![arg("a", "u64"), arg("b", "String")]), "(std::sync::Arc<u64>, std::sync::Arc<String>, )");
    assert_eq!(build_destructure(&vec![]), "let _ = input;");
    assert_eq!(build_destructure(&vec![arg("a", "u64"), arg("b", "String")]), "let (a, b, ) = input.0;");
}

#[test]
fn inherent_call_per_receiver() {
    let args = vec![arg("v", "u64")];
    let (setup, call) = build_inherent_call("Multiply", ReceiverKind::Value, true, &args);
    assert_eq!(setup, "");
    assert_eq!(call, "<Multiply>::run(self, __tf_ctx, &*v)");
    let (setup, call) = build_inherent_call("T", ReceiverKind::RefMut, false, &vec![]);
    assert_eq!(setup, "let mut __task = self;");
    assert_eq!(call, "<T>::run(&mut __task)");
    let (_, call) = build_inherent_call("T", ReceiverKind::Absent, false, &args);
    assert_eq!(call, "<T>::run(&*v)");
    let (_, call) = build_inherent_call("T", ReceiverKind::Ref, false, &args);
    assert_eq!(call, "<T>::run(&self, &*v)");
}

#[test]
fn join_strings_separates() {
    let parts = vec!["a".to_string(), "b".to_string(), "c".to_string()];
    assert_eq!(join_strings(&parts, ", "), "a, b, c");
    assert_eq!(join_strings(&vec![], ", "), "");
}

#[test]
fn find_run_fn_cases() {
    let items = vec![method("new", false, vec![], Some("Self")), method("run", false, vec![receiver()], Some("u64"))];
    assert_eq!(find_run_fn(&items).ok(), Some(1));
    let none = vec![method("new", false, vec![], Some("Self"))];
    let (span, msg) = error_of(find_run_fn(&none));
    assert!(span == ErrorSpan::SelfType);
    assert_eq!(msg, "impl block annotated with #[sync_task]/#[async_task] must define `run`");
    let two = vec![method("run", false, vec![], Some("u8")), method("run", false, vec![], Some("u8"))];
    let (span, msg) = error_of(find_run_fn(&two));
    assert!(span == ErrorSpan::Item(1));
    assert_eq!(msg, "only one `run` method is allowed in #[sync_task]/#[async_task] impl");
}

#[test]
fn root_path_cases() {
    assert_eq!(parse_root_path(&None).ok().unwrap(), "crate");
    let path = Some(vec![MetaArg { name: "path".to_string(), value: "::taskflow".to_string() }]);
    assert_eq!(parse_root_path(&path).ok().unwrap(), "::taskflow");
    let bad = Some(vec![
        MetaArg { name: "path".to_string(), value: "::a".to_string() },
        MetaArg { name: "root".to_string(), value: "::b".to_string() },
    ]);
    let (span, msg) = error_of(parse_root_path(&bad));
    assert!(span == ErrorSpan::Attr(1));
    assert_eq!(msg, "unsupported argument; expected `path = \"::taskflow\"`");
    let (span, msg) = error_of(parse_root_path(&Some(vec![])));
    assert!(span == ErrorSpan::CallSite);
    assert_eq!(msg, "missing `path` argument; expected `path = \"::taskflow\"`");
}

#[test]
fn sync_task_expansion() {
    let items = vec![method("new", false, vec![], Some("Self")), method("run", false, vec![receiver(), shared("v", "u64")], Some("u64"))];
    let attr = Some(vec![MetaArg { name: "path".to_string(), value: "::taskflow".to_string() }]);
    let text = expand_task(&attr, "Fib", &items, false).ok().unwrap();
    assert_eq!(
        text,
        "impl ::taskflow::tf::traits::SyncTask for Fib { type Input = (std::sync::Arc<u64>, ); type Output = u64; fn run(self, __tf_ctx: &::taskflow::tf::component_registry::FlowContext, input: ::taskflow::tf::task::TaskInput<Self::Input>) -> ::taskflow::tf::task::TaskOutput<Self::Output> { let _ = __tf_ctx; let (v, ) = input.0;  ::taskflow::tf::task::TaskOutput(<Fib>::run(self, &*v)) } }"
    );
}

#[test]
fn async_task_expansion() {
    let items = vec![method("run", true, vec![receiver(), shared("ctx", "FlowContext")], Some("u8"))];
    let text = build_task_impl("Src", "crate", &items, true).ok().unwrap();
    assert_eq!(
        text,
        "impl crate::tf::traits::AsyncTask for Src { type Input = (); type Output = u8; fn run(self, __tf_ctx: &crate::tf::component_registry::FlowContext, input: crate::tf::task::TaskInput<Self::Input>) -> impl std::future::Future<Output = crate::tf::task::TaskOutput<Self::Output>> + Send { async move { let _ = input;  crate::tf::task::TaskOutput(<Src>::run(self, __tf_ctx).await) } } }"
    );
}

#[test]
fn task_expansion_errors() {
    let sync_run = vec![method("run", false, vec![receiver()], Some("u8"))];
    let (span, msg) = error_of(build_task_impl("T", "crate", &sync_run, true));
    assert!(span == ErrorSpan::Signature);
    assert_eq!(msg, "#[async_task] requires `async fn run(...)`");
    let (_, msg) = error_of(build_task_impl("T", "crate", &vec![method("run", true, vec![], Some("u8"))], false));
    assert_eq!(msg, "#[sync_task] requires non-async `fn run(...)`");
    let no_output = vec![method("run", false, vec![receiver()], None)];
    let (span, msg) = error_of(build_task_impl("T", "crate", &no_output, false));
    assert!(span == ErrorSpan::Signature);
    assert_eq!(msg, "run method must have an explicit return type");
    let bad_attr = Some(vec![MetaArg { name: "x".to_string(), value: "y".to_string() }]);
    let (span, _) = error_of(expand_task(&bad_attr, "T", &sync_run, false));
    assert!(span == ErrorSpan::Attr(0));
}

#[test]
fn a_path_value_that_is_not_a_rust_path_is_refused() {
    let bad = Some(vec![
        MetaArg { name: "path".to_string(), value: "::taskflow".to_string() },
        MetaArg { name: "path".to_string(), value: "not a path!".to_string() },
    ]);
    let (span, msg) = error_of(parse_root_path(&bad));
    assert!(span == ErrorSpan::Attr(1));
    assert!(!msg.is_empty());
    let fine = Some(vec![MetaArg { name: "path".to_string(), value: "my_crate::inner".to_string() }]);
    assert_eq!(parse_root_path(&fine).ok().unwrap(), "my_crate::inner");
}

#[test]
fn a_failed_path_check_is_reported_at_its_argument() {
    let attr = Some(vec![
        MetaArg { name: "path".to_string(), value: "::a".to_string() },
        MetaArg { name: "path".to_string(), value: "b c".to_string() },
    ]);
    let checks = vec![None, Some("unexpected token".to_string())];
    let (span, msg) = error_of(root_path_from_checks(&attr, &checks));
    assert!(span == ErrorSpan::Attr(1));
    assert_eq!(msg, "unexpected token");
    let passed = vec![None, None];
    assert_eq!(root_path_from_checks(&attr, &passed).ok().unwrap(), "b c");
    assert_eq!(root_path_from_checks(&None, &vec![]).ok().unwrap(), "crate");
}

#[test]
fn an_empty_path_value_is_refused() {
    let attr = Some(vec![MetaArg { name: "path".to_string(), value: String::new() }]);
    let (span, msg) = error_of(parse_root_path(&attr));
    assert!(span == ErrorSpan::Attr(0));
    assert!(!msg.is_empty());
    let simple = Some(vec![MetaArg { name: "path".to_string(), value: "::taskflow".to_string() }]);
    assert_eq!(parse_root_path(&simple).ok().unwrap(), "::taskflow");
}
