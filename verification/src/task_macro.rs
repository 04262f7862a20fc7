use vstd::prelude::*;

use crate::codegen::{concat, is_ascii_alnum, is_ascii_digit, join};
use crate::text::str_eq;

verus! {

/// How the `run` method takes its receiver.
#[derive(PartialEq, Eq, Structural, Clone, Copy)]
pub enum ReceiverKind {
    Absent,
    Value,
    Ref,
    RefMut,
}

/// The type of a typed parameter of `run`.
pub enum ParamType {
    /// `&T`; `referent` is `T` written out, `last_segment` the last path
    /// segment of `T` when `T` is a path.
    SharedRef { referent: String, last_segment: Option<String> },
    /// `&mut T`.
    MutRef,
    /// Anything else (taken by value).
    Other,
}

/// A parameter of `run` as the attribute sees it.
pub enum ParamModel {
    /// `self`, `&self` or `&mut self`.
    Receiver { by_ref: bool, mutable: bool },
    /// `pat: ty`; `ident` is the name when the pattern is a plain identifier.
    Typed { ident: Option<String>, ty: ParamType },
}

/// The signature of a method of the annotated impl block.
pub struct FnSig {
    pub is_async: bool,
    pub params: Vec<ParamModel>,
    /// The return type written out, `None` when it is omitted.
    pub output: Option<String>,
}

/// An item of the annotated impl block.
pub struct ImplItemModel {
    pub name: String,
    /// The signature, when the item is a method.
    pub sig: Option<FnSig>,
}

/// An argument `name = "value"` of the attribute.
pub struct MetaArg {
    pub name: String,
    pub value: String,
}

/// A DAG input of the task: a `&T` parameter of `run`.
pub struct ArgInfo {
    pub binding: String,
    pub input_ty: String,
    pub needs_mut_binding: bool,
}

/// Where an error of the attribute is reported.
#[derive(PartialEq, Eq, Structural, Clone, Copy)]
pub enum ErrorSpan {
    CallSite,
    /// The `i`-th argument of the attribute.
    Attr(usize),
    /// The `i`-th item of the impl block.
    Item(usize),
    /// The impl block's self type.
    SelfType,
    /// The signature of `run`.
    Signature,
    /// The `i`-th parameter of `run`.
    Param(usize),
}

pub struct MacroError {
    pub span: ErrorSpan,
    pub message: String,
}

pub open spec fn simple_ident_message() -> Seq<char> {
    "task `run` args must be simple identifiers"@
}

pub open spec fn mut_ref_message() -> Seq<char> {
    "task `run` args must use shared references `&T`; mutable refs `&mut T` are not supported"@
}

pub open spec fn by_value_message() -> Seq<char> {
    "task `run` args must use shared references `&T`; by-value args are not supported"@
}

/// A typed parameter comes before position `i`.
pub open spec fn typed_before(params: Seq<ParamModel>, i: int) -> bool {
    exists|j: int| 0 <= j < i && #[trigger] params[j] is Typed
}

/// Parameter `i` is the leading `ctx: &FlowContext`: the first typed
/// parameter, named, and a shared reference to a path ending in
/// `FlowContext`.
pub open spec fn is_ctx_param(params: Seq<ParamModel>, i: int) -> bool {
    &&& params[i] matches ParamModel::Typed { ident: Some(_), ty: ParamType::SharedRef { last_segment: Some(l), .. } }
    &&& l@ == "FlowContext"@
    &&& !typed_before(params, i)
}

/// What is wrong with parameter `i`, if anything.
pub open spec fn param_error(params: Seq<ParamModel>, i: int) -> Option<Seq<char>> {
    match params[i] {
        ParamModel::Receiver { .. } => None,
        ParamModel::Typed { ident, ty } => if ident is None {
            Some(simple_ident_message())
        } else if is_ctx_param(params, i) {
            None
        } else {
            match ty {
                ParamType::SharedRef { .. } => None,
                ParamType::MutRef => Some(mut_ref_message()),
                ParamType::Other => Some(by_value_message()),
            }
        },
    }
}

pub open spec fn receiver_kind_of(by_ref: bool, mutable: bool) -> ReceiverKind {
    if !by_ref {
        ReceiverKind::Value
    } else if mutable {
        ReceiverKind::RefMut
    } else {
        ReceiverKind::Ref
    }
}

/// The receiver of the last receiver parameter, `None` without one.
pub open spec fn receiver_of(params: Seq<ParamModel>) -> ReceiverKind
    decreases params.len(),
{
    if params.len() == 0 {
        ReceiverKind::Absent
    } else {
        match params.last() {
            ParamModel::Receiver { by_ref, mutable } => receiver_kind_of(by_ref, mutable),
            _ => receiver_of(params.drop_last()),
        }
    }
}

/// The DAG inputs among `params` (of the full list `all`): their names and
/// referent types, in order.
pub open spec fn dag_inputs(all: Seq<ParamModel>, n: int) -> Seq<(Seq<char>, Seq<char>)>
    decreases n,
{
    if n <= 0 {
        Seq::empty()
    } else {
        let rest = dag_inputs(all, n - 1);
        match all[n - 1] {
            ParamModel::Typed { ident: Some(id), ty: ParamType::SharedRef { referent, .. } } => if is_ctx_param(
                all,
                n - 1,
            ) {
                rest
            } else {
                rest.push((id@, referent@))
            },
            _ => rest,
        }
    }
}

pub open spec fn arg_view(a: ArgInfo) -> (Seq<char>, Seq<char>) {
    (a.binding@, a.input_ty@)
}

pub open spec fn arg_views(args: Seq<ArgInfo>) -> Seq<(Seq<char>, Seq<char>)> {
    args.map_values(|a: ArgInfo| arg_view(a))
}

/// Splits the parameters of `run` into its receiver, whether it asks for
/// the `FlowContext`, and its DAG inputs. The first parameter that is not
/// allowed is reported.
pub fn parse_signature(params: &Vec<ParamModel>) -> (r: Result<(ReceiverKind, bool, Vec<ArgInfo>), MacroError>)
    ensures
        r is Err <==> exists|i: int| 0 <= i < params@.len() && param_error(params@, i) is Some,
        r matches Err(e) ==> e.span matches ErrorSpan::Param(i) && 0 <= i < params@.len() && param_error(
            params@,
            i as int,
        ) == Some(e.message@) && forall|j: int| 0 <= j < i ==> param_error(params@, j) is None,
        r matches Ok((kind, has_ctx, args)) ==> {
            &&& kind == receiver_of(params@)
            &&& has_ctx == exists|i: int| 0 <= i < params@.len() && is_ctx_param(params@, i)
            &&& arg_views(args@) == dag_inputs(params@, params@.len() as int)
            &&& forall|k: int| 0 <= k < args@.len() ==> !(#[trigger] args@[k]).needs_mut_binding
        },
{
    let ghost ps = params@;
    let mut receiver = ReceiverKind::Absent;
    let mut args: Vec<ArgInfo> = Vec::new();
    let mut has_ctx = false;
    let mut typed_arg_index: usize = 0;
    let mut i: usize = 0;
    while i < params.len()
        invariant
            ps == params@,
            i <= ps.len(),
            typed_arg_index <= i,
            (typed_arg_index == 0) <==> !typed_before(ps, i as int),
            receiver == receiver_of(ps.take(i as int)),
            has_ctx == exists|j: int| 0 <= j < i && is_ctx_param(ps, j),
            arg_views(args@) == dag_inputs(ps, i as int),
            forall|k: int| 0 <= k < args@.len() ==> !(#[trigger] args@[k]).needs_mut_binding,
            forall|j: int| 0 <= j < i ==> param_error(ps, j) is None,
        decreases ps.len() - i,
    {
        let ghost old_args = args@;
        proof {
            assert(ps.take(i + 1).drop_last() =~= ps.take(i as int));
            assert(ps.take(i + 1).last() == ps[i as int]);
        }
        match &params[i] {
            ParamModel::Receiver { by_ref, mutable } => {
                receiver = if !*by_ref {
                    ReceiverKind::Value
                } else if *mutable {
                    ReceiverKind::RefMut
                } else {
                    ReceiverKind::Ref
                };
                proof {
                    assert(!is_ctx_param(ps, i as int));
                    assert(typed_before(ps, i + 1) == typed_before(ps, i as int)) by {
                        if typed_before(ps, i + 1) {
                            let j = choose|j: int| 0 <= j < i + 1 && #[trigger] ps[j] is Typed;
                        }
                    }
                    assert(has_ctx == exists|j: int| 0 <= j < i + 1 && is_ctx_param(ps, j)) by {
                        if exists|j: int| 0 <= j < i + 1 && is_ctx_param(ps, j) {
                            let j = choose|j: int| 0 <= j < i + 1 && is_ctx_param(ps, j);
                        }
                    }
                }
            },
            ParamModel::Typed { ident, ty } => {
                let name = match ident {
                    None => {
                        let e = MacroError {
                            span: ErrorSpan::Param(i),
                            message: String::from_str("task `run` args must be simple identifiers"),
                        };
                        return Err(e);
                    },
                    Some(n) => n,
                };
                proof {
                    assert(typed_before(ps, i + 1)) by {
                        assert(ps[i as int] is Typed);
                    }
                }
                if typed_arg_index == 0 {
                    if let ParamType::SharedRef { last_segment: Some(l), .. } = ty {
                        if str_eq(l.as_str(), "FlowContext") {
                            proof {
                                assert(is_ctx_param(ps, i as int));
                                assert(arg_views(args@) =~= dag_inputs(ps, i + 1));
                            }
                            has_ctx = true;
                            typed_arg_index = typed_arg_index + 1;
                            i = i + 1;
                            continue;
                        }
                    }
                }
                proof {
                    assert(!is_ctx_param(ps, i as int));
                    assert(has_ctx == exists|j: int| 0 <= j < i + 1 && is_ctx_param(ps, j)) by {
                        if exists|j: int| 0 <= j < i + 1 && is_ctx_param(ps, j) {
                            let j = choose|j: int| 0 <= j < i + 1 && is_ctx_param(ps, j);
                        }
                    }
                }
                typed_arg_index = typed_arg_index + 1;
                match ty {
                    ParamType::SharedRef { referent, .. } => {
                        args.push(ArgInfo { binding: name.clone(), input_ty: referent.clone(), needs_mut_binding: false });
                        proof {
                            assert(arg_views(args@) =~= arg_views(old_args).push(
                                (name@, referent@),
                            ));
                        }
                    },
                    ParamType::MutRef => {
                        let e = MacroError {
                            span: ErrorSpan::Param(i),
                            message: String::from_str(
                                "task `run` args must use shared references `&T`; mutable refs `&mut T` are not supported",
                            ),
                        };
                        return Err(e);
                    },
                    ParamType::Other => {
                        let e = MacroError {
                            span: ErrorSpan::Param(i),
                            message: String::from_str(
                                "task `run` args must use shared references `&T`; by-value args are not supported",
                            ),
                        };
                        return Err(e);
                    },
                }
            },
        }
        i = i + 1;
    }
    proof {
        assert(ps.take(ps.len() as int) =~= ps);
    }
    Ok((receiver, has_ctx, args))
}

/// `parts` separated by `sep`.
pub fn join_strings(parts: &Vec<String>, sep: &str) -> (r: String)
    ensures
        r@ == join(parts@.map_values(|p: String| p@), sep@),
{
    let ghost ps = parts@.map_values(|p: String| p@);
    let mut r = String::new();
    let mut i: usize = 0;
    assert(ps.take(0) =~= Seq::<Seq<char>>::empty());
    while i < parts.len()
        invariant
            ps == parts@.map_values(|p: String| p@),
            i <= parts@.len(),
            r@ == join(ps.take(i as int), sep@),
        decreases parts@.len() - i,
    {
        if i > 0 {
            r.append(sep);
        }
        r.append(parts[i].as_str());
        proof {
            let t = ps.take(i + 1);
            assert(t.drop_last() =~= ps.take(i as int));
            assert(t.last() == parts@[i as int]@);
            if i == 0 {
                assert(r@ =~= join(t, sep@));
            } else {
                assert(r@ =~= join(t, sep@));
            }
        }
        i = i + 1;
    }
    assert(ps.take(parts@.len() as int) =~= ps);
    r
}

/// The input type of the task: `()` without DAG inputs, otherwise the
/// tuple of shared pointers to the inputs.
pub open spec fn input_type_text(args: Seq<ArgInfo>) -> Seq<char> {
    if args.len() == 0 {
        "()"@
    } else {
        "("@ + concat(args.map_values(|a: ArgInfo| "std::sync::Arc<"@ + a.input_ty@ + ">, "@)) + ")"@
    }
}

pub fn build_input_type(args: &Vec<ArgInfo>) -> (r: String)
    ensures
        r@ == input_type_text(args@),
{
    if args.len() == 0 {
        return String::from_str("()");
    }
    let ghost parts = args@.map_values(|a: ArgInfo| "std::sync::Arc<"@ + a.input_ty@ + ">, "@);
    let mut r = String::from_str("(");
    let mut i: usize = 0;
    assert(parts.take(0) =~= Seq::<Seq<char>>::empty());
    while i < args.len()
        invariant
            parts == args@.map_values(|a: ArgInfo| "std::sync::Arc<"@ + a.input_ty@ + ">, "@),
            i <= args@.len(),
            r@ == "("@ + concat(parts.take(i as int)),
        decreases args@.len() - i,
    {
        r.append("std::sync::Arc<");
        r.append(args[i].input_ty.as_str());
        r.append(">, ");
        proof {
            assert(parts.take(i + 1).drop_last() =~= parts.take(i as int));
            assert(r@ =~= "("@ + concat(parts.take(i + 1)));
        }
        i = i + 1;
    }
    r.append(")");
    assert(parts.take(args@.len() as int) =~= parts);
    r
}

/// The statement that binds the DAG inputs out of the input tuple.
pub open spec fn destructure_text(args: Seq<ArgInfo>) -> Seq<char> {
    if args.len() == 0 {
        "let _ = input;"@
    } else {
        "let ("@ + concat(
            args.map_values(
                |a: ArgInfo| (if a.needs_mut_binding { "mut "@ } else { ""@ }) + a.binding@ + ", "@,
            ),
        ) + ") = input.0;"@
    }
}

pub fn build_destructure(args: &Vec<ArgInfo>) -> (r: String)
    ensures
        r@ == destructure_text(args@),
{
    if args.len() == 0 {
        return String::from_str("let _ = input;");
    }
    let ghost parts = args@.map_values(
        |a: ArgInfo| (if a.needs_mut_binding { "mut "@ } else { ""@ }) + a.binding@ + ", "@,
    );
    let mut r = String::from_str("let (");
    let mut i: usize = 0;
    assert(parts.take(0) =~= Seq::<Seq<char>>::empty());
    while i < args.len()
        invariant
            parts == args@.map_values(
                |a: ArgInfo| (if a.needs_mut_binding { "mut "@ } else { ""@ }) + a.binding@ + ", "@,
            ),
            i <= args@.len(),
            r@ == "let ("@ + concat(parts.take(i as int)),
        decreases args@.len() - i,
    {
        if args[i].needs_mut_binding {
            r.append("mut ");
        } else {
            r.append("");
        }
        r.append(args[i].binding.as_str());
        r.append(", ");
        proof {
            assert(parts.take(i + 1).drop_last() =~= parts.take(i as int));
            assert(r@ =~= "let ("@ + concat(parts.take(i + 1)));
        }
        i = i + 1;
    }
    r.append(") = input.0;");
    assert(parts.take(args@.len() as int) =~= parts);
    r
}

/// How the receiver is passed to the inherent `run`.
pub open spec fn receiver_args(kind: ReceiverKind) -> Seq<Seq<char>> {
    match kind {
        ReceiverKind::Absent => Seq::empty(),
        ReceiverKind::Value => seq!["self"@],
        ReceiverKind::Ref => seq!["&self"@],
        ReceiverKind::RefMut => seq!["&mut __task"@],
    }
}

/// The arguments of the inherent `run` call: the receiver, the context
/// when `run` asks for it, then the DAG inputs.
pub open spec fn call_args(kind: ReceiverKind, has_ctx: bool, args: Seq<ArgInfo>) -> Seq<Seq<char>> {
    receiver_args(kind) + (if has_ctx { seq!["__tf_ctx"@] } else { Seq::empty() }) + args.map_values(
        |a: ArgInfo| "&*"@ + a.binding@,
    )
}

/// The inherent `run` call hands the task's DAG inputs over in the order
/// in which `run` declares them: after the receiver (and `__tf_ctx` when
/// `run` asks for the context), its `k`-th argument is `&*` and the binding
/// of the `k`-th parsed input.
pub proof fn law_call_passes_inputs_in_order(kind: ReceiverKind, has_ctx: bool, args: Seq<ArgInfo>)
    ensures
        call_args(kind, has_ctx, args).len() == receiver_args(kind).len() + (if has_ctx { 1int } else { 0int })
            + args.len(),
        call_args(kind, has_ctx, args).take(receiver_args(kind).len() as int) == receiver_args(kind),
        has_ctx ==> call_args(kind, has_ctx, args)[receiver_args(kind).len() as int] == "__tf_ctx"@,
        forall|k: int|
            0 <= k < args.len() ==> call_args(kind, has_ctx, args)[receiver_args(kind).len() + (if has_ctx {
                1int
            } else {
                0int
            }) + k] == "&*"@ + (#[trigger] args[k]).binding@,
{
    let c = call_args(kind, has_ctx, args);
    let r = receiver_args(kind);
    assert(c.take(r.len() as int) =~= r);
}

pub open spec fn call_text(self_ty: Seq<char>, kind: ReceiverKind, has_ctx: bool, args: Seq<ArgInfo>) -> Seq<char> {
    "<"@ + self_ty + ">::run("@ + join(call_args(kind, has_ctx, args), ", "@) + ")"@
}

pub open spec fn setup_text(kind: ReceiverKind) -> Seq<char> {
    if kind == ReceiverKind::RefMut {
        "let mut __task = self;"@
    } else {
        ""@
    }
}

/// The statement that prepares the receiver, and the call of the user's
/// inherent `run`.
pub fn build_inherent_call(self_ty: &str, receiver_kind: ReceiverKind, has_ctx: bool, args: &Vec<ArgInfo>) -> (r: (
    String,
    String,
))
    ensures
        r.0@ == setup_text(receiver_kind),
        r.1@ == call_text(self_ty@, receiver_kind, has_ctx, args@),
{
    let mut all: Vec<String> = Vec::new();
    match receiver_kind {
        ReceiverKind::Absent => {},
        ReceiverKind::Value => all.push(String::from_str("self")),
        ReceiverKind::Ref => all.push(String::from_str("&self")),
        ReceiverKind::RefMut => all.push(String::from_str("&mut __task")),
    }
    if has_ctx {
        all.push(String::from_str("__tf_ctx"));
    }
    let ghost head = all@.map_values(|p: String| p@);
    assert(head =~= receiver_args(receiver_kind) + (if has_ctx { seq!["__tf_ctx"@] } else { Seq::empty() }));
    let ghost tail = args@.map_values(|a: ArgInfo| "&*"@ + a.binding@);
    let mut i: usize = 0;
    assert(head + tail.take(0) =~= head);
    while i < args.len()
        invariant
            tail == args@.map_values(|a: ArgInfo| "&*"@ + a.binding@),
            i <= args@.len(),
            all@.map_values(|p: String| p@) == head + tail.take(i as int),
        decreases args@.len() - i,
    {
        let mut a = String::from_str("&*");
        a.append(args[i].binding.as_str());
        let ghost before = all@.map_values(|p: String| p@);
        all.push(a);
        proof {
            assert(all@.map_values(|p: String| p@) =~= before.push(a@));
            assert(tail.take(i + 1) =~= tail.take(i as int).push(tail[i as int]));
            assert(head + tail.take(i + 1) =~= (head + tail.take(i as int)).push(tail[i as int]));
        }
        i = i + 1;
    }
    assert(tail.take(args@.len() as int) =~= tail);
    let joined = join_strings(&all, ", ");
    let mut call = String::from_str("<");
    call.append(self_ty);
    call.append(">::run(");
    call.append(joined.as_str());
    call.append(")");
    let setup = if receiver_kind == ReceiverKind::RefMut {
        String::from_str("let mut __task = self;")
    } else {
        String::from_str("")
    };
    proof {
        assert(call@ =~= call_text(self_ty@, receiver_kind, has_ctx, args@));
        assert(setup@ =~= setup_text(receiver_kind));
    }
    (setup, call)
}

/// The method `run` of the generated trait impl.
pub open spec fn run_method_text(
    root: Seq<char>,
    is_async: bool,
    has_ctx: bool,
    destructure: Seq<char>,
    setup: Seq<char>,
    call: Seq<char>,
) -> Seq<char> {
    let head = "fn run(self, __tf_ctx: &"@ + root + "::tf::component_registry::FlowContext, input: "@ + root
        + "::tf::task::TaskInput<Self::Input>) -> "@;
    let stmts = (if has_ctx { ""@ } else { "let _ = __tf_ctx; "@ }) + destructure + " "@ + setup + " "@;
    if is_async {
        head + "impl std::future::Future<Output = "@ + root + "::tf::task::TaskOutput<Self::Output>> + Send { async move { "@
            + stmts + root + "::tf::task::TaskOutput("@ + call + ".await) } }"@
    } else {
        head + root + "::tf::task::TaskOutput<Self::Output> { "@ + stmts + root + "::tf::task::TaskOutput("@ + call
            + ") }"@
    }
}

/// The trait impl that the attribute adds next to the annotated impl block.
pub open spec fn task_impl_text(
    self_ty: Seq<char>,
    root: Seq<char>,
    is_async: bool,
    kind: ReceiverKind,
    has_ctx: bool,
    args: Seq<ArgInfo>,
    output: Seq<char>,
) -> Seq<char> {
    let trait_name = root + (if is_async { "::tf::traits::AsyncTask"@ } else { "::tf::traits::SyncTask"@ });
    "impl "@ + trait_name + " for "@ + self_ty + " { type Input = "@ + input_type_text(args) + "; type Output = "@
        + output + "; "@ + run_method_text(
        root,
        is_async,
        has_ctx,
        destructure_text(args),
        setup_text(kind),
        call_text(self_ty, kind, has_ctx, args),
    ) + " }"@
}

pub open spec fn is_run_item(item: ImplItemModel) -> bool {
    item.sig is Some && item.name@ == "run"@
}

/// Number of `run` methods among the first `n` items.
pub open spec fn runs_before(items: Seq<ImplItemModel>, n: int) -> nat
    decreases n,
{
    if n <= 0 {
        0
    } else {
        runs_before(items, n - 1) + (if is_run_item(items[n - 1]) { 1nat } else { 0nat })
    }
}

/// Item `j` is the second `run` method of `items`.
pub open spec fn second_run(items: Seq<ImplItemModel>, j: int) -> bool {
    0 <= j < items.len() && is_run_item(items[j]) && runs_before(items, j) == 1
}

/// The error for an impl block without exactly one `run`: no `run` is
/// reported at the self type, a second `run` at that item.
pub open spec fn run_count_error(items: Seq<ImplItemModel>) -> (ErrorSpan, Seq<char>) {
    if runs_before(items, items.len() as int) == 0 {
        (ErrorSpan::SelfType, "impl block annotated with #[sync_task]/#[async_task] must define `run`"@)
    } else {
        (
            ErrorSpan::Item((choose|j: int| second_run(items, j)) as usize),
            "only one `run` method is allowed in #[sync_task]/#[async_task] impl"@,
        )
    }
}

/// Finds the only `run` method of the impl block.
pub fn find_run_fn(items: &Vec<ImplItemModel>) -> (r: Result<usize, MacroError>)
    ensures
        r is Ok <==> runs_before(items@, items@.len() as int) == 1,
        r matches Ok(i) ==> i < items@.len() && is_run_item(items@[i as int]),
        r matches Err(e) ==> (e.span matches ErrorSpan::Item(j) && j < items@.len() && is_run_item(items@[j as int])
            && runs_before(items@, j as int) == 1 && e.message@
            == "only one `run` method is allowed in #[sync_task]/#[async_task] impl"@) || (e.span
            == ErrorSpan::SelfType && runs_before(items@, items@.len() as int) == 0 && e.message@
            == "impl block annotated with #[sync_task]/#[async_task] must define `run`"@),
        r matches Err(e) ==> (e.span, e.message@) == run_count_error(items@),
{
    let mut run_fn: Option<usize> = None;
    let mut i: usize = 0;
    while i < items.len()
        invariant
            i <= items@.len(),
            runs_before(items@, i as int) <= 1,
            run_fn is None <==> runs_before(items@, i as int) == 0,
            run_fn matches Some(k) ==> k < i && is_run_item(items@[k as int]),
        decreases items@.len() - i,
    {
        if items[i].sig.is_some() && str_eq(items[i].name.as_str(), "run") {
            if run_fn.is_some() {
                proof {
                    assert(runs_before(items@, i + 1) == 2);
                    lemma_runs_monotone(items@, i + 1, items@.len() as int);
                    assert(second_run(items@, i as int));
                    let c = choose|j: int| second_run(items@, j);
                    if c < i {
                        lemma_runs_monotone(items@, c + 1, i as int);
                    } else if c > i {
                        lemma_runs_monotone(items@, i + 1, c);
                    }
                    assert(c == i);
                }
                let e = MacroError {
                    span: ErrorSpan::Item(i),
                    message: String::from_str("only one `run` method is allowed in #[sync_task]/#[async_task] impl"),
                };
                return Err(e);
            }
            run_fn = Some(i);
        }
        i = i + 1;
    }
    match run_fn {
        Some(k) => Ok(k),
        None => {
            let e = MacroError {
                span: ErrorSpan::SelfType,
                message: String::from_str("impl block annotated with #[sync_task]/#[async_task] must define `run`"),
            };
            Err(e)
        },
    }
}

proof fn lemma_runs_monotone(items: Seq<ImplItemModel>, m: int, n: int)
    requires
        m <= n,
    ensures
        runs_before(items, m) <= runs_before(items, n),
    decreases n - m,
{
    if m < n {
        lemma_runs_monotone(items, m, n - 1);
    }
}

/// The outcome of a macro step as plain values.
pub open spec fn macro_result(r: Result<String, MacroError>) -> Result<Seq<char>, (ErrorSpan, Seq<char>)> {
    match r {
        Ok(t) => Ok(t@),
        Err(e) => Err((e.span, e.message@)),
    }
}

pub open spec fn unsupported_arg_message() -> Seq<char> {
    "unsupported argument; expected `path = \"::taskflow\"`"@
}

pub open spec fn missing_path_message() -> Seq<char> {
    "missing `path` argument; expected `path = \"::taskflow\"`"@
}

/// The words that syn refuses as an identifier: the underscore and Rust's
/// keywords, strict and reserved.
pub open spec fn refused_ident(s: Seq<char>) -> bool {
    ||| s == "_"@
    ||| s == "abstract"@
    ||| s == "as"@
    ||| s == "async"@
    ||| s == "await"@
    ||| s == "become"@
    ||| s == "box"@
    ||| s == "break"@
    ||| s == "const"@
    ||| s == "continue"@
    ||| s == "crate"@
    ||| s == "do"@
    ||| s == "dyn"@
    ||| s == "else"@
    ||| s == "enum"@
    ||| s == "extern"@
    ||| s == "false"@
    ||| s == "final"@
    ||| s == "fn"@
    ||| s == "for"@
    ||| s == "if"@
    ||| s == "impl"@
    ||| s == "in"@
    ||| s == "let"@
    ||| s == "loop"@
    ||| s == "macro"@
    ||| s == "match"@
    ||| s == "mod"@
    ||| s == "move"@
    ||| s == "mut"@
    ||| s == "override"@
    ||| s == "priv"@
    ||| s == "pub"@
    ||| s == "ref"@
    ||| s == "return"@
    ||| s == "Self"@
    ||| s == "self"@
    ||| s == "static"@
    ||| s == "struct"@
    ||| s == "super"@
    ||| s == "trait"@
    ||| s == "true"@
    ||| s == "try"@
    ||| s == "type"@
    ||| s == "typeof"@
    ||| s == "unsafe"@
    ||| s == "unsized"@
    ||| s == "use"@
    ||| s == "virtual"@
    ||| s == "where"@
    ||| s == "while"@
    ||| s == "yield"@
}

/// `s` is an ASCII identifier that syn accepts: a letter or `_`, then
/// letters, digits or `_`, and not a refused word.
pub open spec fn plain_ident(s: Seq<char>) -> bool {
    &&& s.len() > 0
    &&& (is_ascii_alnum(s[0]) && !is_ascii_digit(s[0])) || s[0] == '_'
    &&& forall|i: int| 1 <= i < s.len() ==> is_ascii_alnum(#[trigger] s[i]) || s[i] == '_'
    &&& !refused_ident(s)
}

/// `s` is a simple path: plain identifiers joined by `::`, with an
/// optional leading `::`.
pub open spec fn simple_path(s: Seq<char>) -> bool {
    exists|segs: Seq<Seq<char>>|
        #![trigger join(segs, "::"@)]
        segs.len() > 0 && (forall|k: int| 0 <= k < segs.len() ==> plain_ident(#[trigger] segs[k])) && (s == join(
            segs,
            "::"@,
        ) || s == "::"@ + join(segs, "::"@))
}

/// `syn::LitStr::parse::<syn::Path>` on a string literal that holds
/// `value`: `None` when `value` parses as a Rust path, otherwise the
/// parser's message. Which lexer reads the text depends on the running
/// process, so only what every Rust lexer and syn's path parser agree on
/// is stated: an empty value is refused (the parser expects an
/// identifier), and a simple path of ASCII identifiers is accepted.
#[verifier::external_body]
fn path_literal_check(value: &str) -> (r: Option<String>)
    ensures
        value@.len() == 0 ==> r is Some,
        simple_path(value@) ==> r is None,
{
    syn::LitStr::new(value, proc_macro2::Span::call_site()).parse::<syn::Path>().err().map(|e| e.to_string())
}

/// The characters of each check result.
pub open spec fn check_views(checks: Seq<Option<String>>) -> Seq<Option<Seq<char>>> {
    checks.map_values(|c: Option<String>| match c {
        Some(m) => Some(m@),
        None => None,
    })
}

/// `checks` holds one path check per argument of `attr`: `None` for each
/// argument not named `path` (which is not checked); for a `path`
/// argument, a failure when its value is empty and a pass when it is a
/// simple path.
pub open spec fn checks_made(attr: Option<Vec<MetaArg>>, checks: Seq<Option<Seq<char>>>) -> bool {
    match attr {
        None => checks.len() == 0,
        Some(args) => checks.len() == args@.len() && forall|i: int|
            0 <= i < args@.len() ==> {
                &&& (#[trigger] args@[i]).name@ != "path"@ ==> checks[i] is None
                &&& args@[i].name@ == "path"@ && args@[i].value@.len() == 0 ==> checks[i] is Some
                &&& args@[i].name@ == "path"@ && simple_path(args@[i].value@) ==> checks[i] is None
            },
    }
}

/// Argument `a` is `path = ...` and its value passed the path check `check`.
pub open spec fn accepted_arg(a: MetaArg, check: Option<Seq<char>>) -> bool {
    a.name@ == "path"@ && check is None
}

/// Argument `i` is the first argument that is not an accepted `path = ...`.
pub open spec fn first_rejected_arg(args: Seq<MetaArg>, checks: Seq<Option<Seq<char>>>, i: int) -> bool {
    &&& 0 <= i < args.len()
    &&& !accepted_arg(args[i], checks[i])
    &&& forall|j: int| 0 <= j < i ==> accepted_arg(#[trigger] args[j], checks[j])
}

/// Why argument `a` is rejected: another name than `path`, or the message
/// of its path check.
pub open spec fn rejected_arg_message(a: MetaArg, check: Option<Seq<char>>) -> Seq<char> {
    if a.name@ != "path"@ {
        unsupported_arg_message()
    } else {
        check->Some_0
    }
}

/// The crate path that the generated code uses, given the path check of
/// each argument: `crate` without arguments, otherwise the value of the
/// last `path = "..."` argument; the first argument that is not `path`, or
/// whose value failed its check, is an error, and so is an empty list.
pub open spec fn root_path_spec(
    attr: Option<Vec<MetaArg>>,
    checks: Seq<Option<Seq<char>>>,
) -> Result<Seq<char>, (ErrorSpan, Seq<char>)> {
    match attr {
        None => Ok("crate"@),
        Some(args) => if exists|i: int| first_rejected_arg(args@, checks, i) {
            let i = choose|i: int| first_rejected_arg(args@, checks, i);
            Err((ErrorSpan::Attr(i as usize), rejected_arg_message(args@[i], checks[i])))
        } else if args@.len() == 0 {
            Err((ErrorSpan::CallSite, missing_path_message()))
        } else {
            Ok(args@.last().value@)
        },
    }
}

/// Reads the crate path from the attribute's arguments and the outcome
/// `checks[i]` of the path check of each argument, as [`root_path_spec`]
/// says.
pub fn root_path_from_checks(attr: &Option<Vec<MetaArg>>, checks: &Vec<Option<String>>) -> (r: Result<String, MacroError>)
    requires
        attr matches Some(args) ==> checks@.len() == args@.len(),
    ensures
        macro_result(r) == root_path_spec(*attr, check_views(checks@)),
{
    let ghost cv = check_views(checks@);
    match attr {
        None => Ok(String::from_str("crate")),
        Some(args) => {
            assert(*attr == Some(*args));
            let mut parsed: Option<String> = None;
            let mut i: usize = 0;
            while i < args.len()
                invariant
                    *attr == Some(*args),
                    checks@.len() == args@.len(),
                    cv == check_views(checks@),
                    i <= args@.len(),
                    forall|j: int| 0 <= j < i ==> accepted_arg(#[trigger] args@[j], cv[j]),
                    parsed is None <==> i == 0,
                    parsed matches Some(p) ==> i > 0 && p@ == args@[i - 1].value@,
                decreases args@.len() - i,
            {
                let is_path = str_eq(args[i].name.as_str(), "path");
                let failure = if is_path {
                    match &checks[i] {
                        Some(m) => Some(m.clone()),
                        None => None,
                    }
                } else {
                    Some(String::from_str("unsupported argument; expected `path = \"::taskflow\"`"))
                };
                proof {
                    assert(cv[i as int] == match checks@[i as int] {
                        Some(m) => Some(m@),
                        None => None::<Seq<char>>,
                    });
                }
                match failure {
                    None => {
                        parsed = Some(args[i].value.clone());
                    },
                    Some(message) => {
                        let e = MacroError { span: ErrorSpan::Attr(i), message };
                        proof {
                            assert(first_rejected_arg(args@, cv, i as int));
                            assert forall|i2: int| first_rejected_arg(args@, cv, i2) implies i2 == i by {
                                if i2 > i {
                                    assert(accepted_arg(args@[i as int], cv[i as int]));
                                }
                            }
                            let i3 = choose|i3: int| first_rejected_arg(args@, cv, i3);
                            assert(i3 == i);
                            assert(e.message@ == rejected_arg_message(args@[i as int], cv[i as int]));
                        }
                        return Err(e);
                    },
                }
                i = i + 1;
            }
            proof {
                assert(!exists|i2: int| first_rejected_arg(args@, cv, i2));
            }
            match parsed {
                Some(p) => Ok(p),
                None => {
                    let e = MacroError {
                        span: ErrorSpan::CallSite,
                        message: String::from_str("missing `path` argument; expected `path = \"::taskflow\"`"),
                    };
                    Err(e)
                },
            }
        },
    }
}

/// Checks the value of every `path` argument as a Rust path and reads the
/// crate path from the arguments: the result is what
/// [`root_path_from_checks`] gives for some outcome of those checks.
pub fn parse_root_path(attr: &Option<Vec<MetaArg>>) -> (r: Result<String, MacroError>)
    ensures
        exists|checks: Seq<Option<Seq<char>>>| checks_made(*attr, checks) && macro_result(r) == root_path_spec(*attr, checks),
{
    let mut checks: Vec<Option<String>> = Vec::new();
    match attr {
        None => {},
        Some(args) => {
            let mut i: usize = 0;
            while i < args.len()
                invariant
                    i <= args@.len(),
                    checks@.len() == i,
                    forall|j: int|
                        0 <= j < i ==> {
                            &&& (#[trigger] args@[j]).name@ != "path"@ ==> checks@[j] is None
                            &&& args@[j].name@ == "path"@ && args@[j].value@.len() == 0 ==> checks@[j] is Some
                            &&& args@[j].name@ == "path"@ && simple_path(args@[j].value@) ==> checks@[j] is None
                        },
                decreases args@.len() - i,
            {
                if str_eq(args[i].name.as_str(), "path") {
                    checks.push(path_literal_check(args[i].value.as_str()));
                } else {
                    checks.push(None);
                }
                i = i + 1;
            }
        },
    }
    let r = root_path_from_checks(attr, &checks);
    proof {
        let cv = check_views(checks@);
        assert(checks_made(*attr, cv));
    }
    r
}

/// The `run` item at `i` is the only one, with signature `sig`.
pub open spec fn sole_run(items: Seq<ImplItemModel>, i: int, sig: FnSig) -> bool {
    &&& 0 <= i < items.len()
    &&& is_run_item(items[i])
    &&& items[i].sig == Some(sig)
    &&& runs_before(items, items.len() as int) == 1
}

pub open spec fn asyncness_message(expect_async: bool) -> Seq<char> {
    if expect_async {
        "#[async_task] requires `async fn run(...)`"@
    } else {
        "#[sync_task] requires non-async `fn run(...)`"@
    }
}

/// What [`build_task_impl`] returns: an error unless there is exactly one
/// `run` method; then an asyncness mismatch, the first parameter that is
/// not allowed, or a missing return type is reported, in this order;
/// otherwise the trait impl for the parsed signature.
#[verifier::opaque]
pub open spec fn built_task_impl(
    self_ty: Seq<char>,
    root: Seq<char>,
    items: Seq<ImplItemModel>,
    expect_async: bool,
    r: Result<Seq<char>, (ErrorSpan, Seq<char>)>,
) -> bool {
    &&& runs_before(items, items.len() as int) != 1 ==> r == Err::<Seq<char>, (ErrorSpan, Seq<char>)>(
        run_count_error(items),
    )
    &&& forall|i: int, sig: FnSig| #[trigger] sole_run(items, i, sig) ==> {
        &&& sig.is_async != expect_async ==> r == Err::<Seq<char>, (ErrorSpan, Seq<char>)>(
            (ErrorSpan::Signature, asyncness_message(expect_async)),
        )
        &&& sig.is_async == expect_async && (exists|j: int|
            0 <= j < sig.params@.len() && param_error(sig.params@, j) is Some) ==> (r matches Err(
            (span, m),
        ) && span matches ErrorSpan::Param(p) && param_error(sig.params@, p as int) == Some(m) && forall|j: int|
            0 <= j < p ==> param_error(sig.params@, j) is None)
        &&& sig.is_async == expect_async && (forall|j: int|
            0 <= j < sig.params@.len() ==> param_error(sig.params@, j) is None) ==> {
            &&& sig.output is None ==> r == Err::<Seq<char>, (ErrorSpan, Seq<char>)>(
                (ErrorSpan::Signature, "run method must have an explicit return type"@),
            )
            &&& sig.output matches Some(out) ==> exists|args: Seq<ArgInfo>|
                #[trigger] arg_views(args) == dag_inputs(sig.params@, sig.params@.len() as int)
                    && (forall|k: int| 0 <= k < args.len() ==> !(#[trigger] args[k]).needs_mut_binding) && r
                    == Ok::<Seq<char>, (ErrorSpan, Seq<char>)>(
                    task_impl_text(
                        self_ty,
                        root,
                        expect_async,
                        receiver_of(sig.params@),
                        exists|c: int| 0 <= c < sig.params@.len() && is_ctx_param(sig.params@, c),
                        args,
                        out@,
                    ),
                )
        }
    }
}

/// Builds the `SyncTask` / `AsyncTask` impl for the annotated impl block of
/// `self_ty`, whose only `run` method must be `async` exactly when
/// `expect_async` holds.
pub fn build_task_impl(self_ty: &str, root: &str, items: &Vec<ImplItemModel>, expect_async: bool) -> (r: Result<
    String,
    MacroError,
>)
    ensures
        built_task_impl(self_ty@, root@, items@, expect_async, macro_result(r)),
{
    proof {
        reveal(built_task_impl);
    }
    let idx = find_run_fn(items)?;
    let sig = match &items[idx].sig {
        Some(s) => s,
        None => {
            return Err(MacroError { span: ErrorSpan::SelfType, message: String::new() });
        },
    };
    proof {
        lemma_single_run(items@, idx as int);
    }
    if sig.is_async != expect_async {
        let msg = if expect_async {
            String::from_str("#[async_task] requires `async fn run(...)`")
        } else {
            String::from_str("#[sync_task] requires non-async `fn run(...)`")
        };
        return Err(MacroError { span: ErrorSpan::Signature, message: msg });
    }
    let (receiver_kind, has_ctx, args) = parse_signature(&sig.params)?;
    let output = match &sig.output {
        None => {
            return Err(MacroError {
                span: ErrorSpan::Signature,
                message: String::from_str("run method must have an explicit return type"),
            });
        },
        Some(o) => o,
    };
    let text = render_task_impl(self_ty, root, expect_async, receiver_kind, has_ctx, &args, output.as_str());
    proof {
        assert(arg_views(args@) == dag_inputs(sig.params@, sig.params@.len() as int));
    }
    Ok(text)
}

/// Writes the method `run` of the generated trait impl.
fn render_run_method(root: &str, is_async: bool, has_ctx: bool, destructure: &str, setup: &str, call: &str) -> (text: String)
    ensures
        text@ == run_method_text(root@, is_async, has_ctx, destructure@, setup@, call@),
{
    let mut head = String::from_str("fn run(self, __tf_ctx: &");
    head.append(root);
    head.append("::tf::component_registry::FlowContext, input: ");
    head.append(root);
    head.append("::tf::task::TaskInput<Self::Input>) -> ");
    let ghost h = head@;
    let mut stmts = if has_ctx {
        String::from_str("")
    } else {
        String::from_str("let _ = __tf_ctx; ")
    };
    stmts.append(destructure);
    stmts.append(" ");
    stmts.append(setup);
    stmts.append(" ");
    let ghost st = stmts@;
    let mut text = head;
    if is_async {
        text.append("impl std::future::Future<Output = ");
        text.append(root);
        text.append("::tf::task::TaskOutput<Self::Output>> + Send { async move { ");
        text.append(stmts.as_str());
        text.append(root);
        text.append("::tf::task::TaskOutput(");
        text.append(call);
        text.append(".await) } }");
    } else {
        text.append(root);
        text.append("::tf::task::TaskOutput<Self::Output> { ");
        text.append(stmts.as_str());
        text.append(root);
        text.append("::tf::task::TaskOutput(");
        text.append(call);
        text.append(") }");
    }
    proof {
        assert(st =~= (if has_ctx { ""@ } else { "let _ = __tf_ctx; "@ }) + destructure@ + " "@ + setup@ + " "@);
        assert(text@ =~= run_method_text(root@, is_async, has_ctx, destructure@, setup@, call@));
    }
    text
}

/// Writes the trait impl for a parsed signature.
pub fn render_task_impl(
    self_ty: &str,
    root: &str,
    expect_async: bool,
    receiver_kind: ReceiverKind,
    has_ctx: bool,
    args: &Vec<ArgInfo>,
    output: &str,
) -> (text: String)
    ensures
        text@ == task_impl_text(self_ty@, root@, expect_async, receiver_kind, has_ctx, args@, output@),
{
    let input_ty = build_input_type(args);
    let destructure = build_destructure(args);
    let (setup, call) = build_inherent_call(self_ty, receiver_kind, has_ctx, args);
    let method = render_run_method(root, expect_async, has_ctx, destructure.as_str(), setup.as_str(), call.as_str());
    let mut text = String::from_str("impl ");
    text.append(root);
    if expect_async {
        text.append("::tf::traits::AsyncTask");
    } else {
        text.append("::tf::traits::SyncTask");
    }
    text.append(" for ");
    text.append(self_ty);
    text.append(" { type Input = ");
    text.append(input_ty.as_str());
    text.append("; type Output = ");
    text.append(output);
    text.append("; ");
    text.append(method.as_str());
    text.append(" }");
    assert(text@ =~= task_impl_text(self_ty@, root@, expect_async, receiver_kind, has_ctx, args@, output@));
    text
}

/// With exactly one `run` item, it is the one at `idx`.
proof fn lemma_single_run(items: Seq<ImplItemModel>, idx: int)
    requires
        0 <= idx < items.len(),
        is_run_item(items[idx]),
        runs_before(items, items.len() as int) == 1,
    ensures
        forall|i: int| 0 <= i < items.len() && is_run_item(items[i]) ==> i == idx,
{
    assert forall|i: int| 0 <= i < items.len() && is_run_item(items[i]) implies i == idx by {
        if i != idx {
            lemma_two_runs(items, i, idx, items.len() as int);
        }
    }
}

proof fn lemma_two_runs(items: Seq<ImplItemModel>, a: int, b: int, n: int)
    requires
        0 <= a < n,
        0 <= b < n,
        a != b,
        n <= items.len(),
        is_run_item(items[a]),
        is_run_item(items[b]),
    ensures
        runs_before(items, n) >= 2,
    decreases n,
{
    if a == n - 1 || b == n - 1 {
        let other = if a == n - 1 { b } else { a };
        lemma_one_run(items, other, n - 1);
    } else {
        lemma_two_runs(items, a, b, n - 1);
    }
}

proof fn lemma_one_run(items: Seq<ImplItemModel>, a: int, n: int)
    requires
        0 <= a < n,
        n <= items.len(),
        is_run_item(items[a]),
    ensures
        runs_before(items, n) >= 1,
    decreases n,
{
    if a < n - 1 {
        lemma_one_run(items, a, n - 1);
    }
}

/// The expansion of `#[sync_task]` (`expect_async` false) or
/// `#[async_task]` (true): the root path from the attribute's arguments,
/// then the trait impl.
pub fn expand_task(attr: &Option<Vec<MetaArg>>, self_ty: &str, items: &Vec<ImplItemModel>, expect_async: bool) -> (r: Result<
    String,
    MacroError,
>)
    ensures
        exists|checks: Seq<Option<Seq<char>>>|
            checks_made(*attr, checks) && (root_path_spec(*attr, checks) is Err ==> macro_result(r) == root_path_spec(
                *attr,
                checks,
            )) && (root_path_spec(*attr, checks) matches Ok(root) ==> built_task_impl(
                self_ty@,
                root,
                items@,
                expect_async,
                macro_result(r),
            )),
{
    let root = parse_root_path(attr);
    let ghost checks = choose|checks: Seq<Option<Seq<char>>>|
        checks_made(*attr, checks) && macro_result(root) == root_path_spec(*attr, checks);
    match root {
        Ok(root) => {
            let r = build_task_impl(self_ty, root.as_str(), items, expect_async);
            assert(checks_made(*attr, checks));
            r
        },
        Err(e) => {
            assert(checks_made(*attr, checks));
            Err(e)
        },
    }
}

} // verus!
