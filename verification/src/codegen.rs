use vstd::prelude::*;

use crate::dag::{
    copies, count_of, edges_from, flatten, flatten_layers, has_cycle, is_layering, is_topological_order,
    law_layers_give_topological_order, layer_ids, lemma_count_of_take, ready_layers, succs_in_order, Dag,
};
use crate::text::push_char;

verus! {

/// `path` with every backslash turned into a forward slash.
pub open spec fn unix_path(path: Seq<char>) -> Seq<char> {
    path.map_values(|c: char| if c == '\\' { '/' } else { c })
}

/// Writes a path with forward slashes only.
pub fn to_unix(path: &str) -> (r: String)
    ensures
        r@ == unix_path(path@),
{
    let n = path.unicode_len();
    let mut r = String::new();
    let mut i: usize = 0;
    while i < n
        invariant
            n == path@.len(),
            i <= n,
            r@ == unix_path(path@.take(i as int)),
        decreases n - i,
    {
        let c = path.get_char(i);
        if c == '\\' {
            push_char(&mut r, '/');
        } else {
            push_char(&mut r, c);
        }
        proof {
            assert(unix_path(path@.take(i + 1)) =~= unix_path(path@.take(i as int)).push(
                if c == '\\' { '/' } else { c },
            ));
        }
        i = i + 1;
    }
    proof {
        assert(path@.take(n as int) =~= path@);
    }
    r
}

/// An ASCII letter or digit.
pub open spec fn is_ascii_alnum(c: char) -> bool {
    ('0' <= c && c <= '9') || ('a' <= c && c <= 'z') || ('A' <= c && c <= 'Z')
}

pub open spec fn is_ascii_digit(c: char) -> bool {
    '0' <= c && c <= '9'
}

/// The ASCII lower-case form of `c`; other characters are kept.
pub open spec fn ascii_lower(c: char) -> char {
    if 'A' <= c && c <= 'Z' {
        ((c as u32) + 32) as char
    } else {
        c
    }
}

fn char_is_ascii_alnum(c: char) -> (r: bool)
    ensures
        r == is_ascii_alnum(c),
{
    ('0' <= c && c <= '9') || ('a' <= c && c <= 'z') || ('A' <= c && c <= 'Z')
}

fn char_to_ascii_lower(c: char) -> (r: char)
    ensures
        r == ascii_lower(c),
{
    if 'A' <= c && c <= 'Z' {
        let x: u8 = (c as u8) + 32;
        x as char
    } else {
        c
    }
}

/// The identifier character that stands for `c`.
pub open spec fn ident_char(c: char) -> char {
    if is_ascii_alnum(c) || c == '_' {
        ascii_lower(c)
    } else {
        '_'
    }
}

/// The variable name under which the generated code keeps an output:
/// `out_` followed by the output name, lower-cased, with every character
/// that is not an ASCII letter, digit or underscore replaced by `_`, and
/// one more `_` when the result ends in a digit.
pub open spec fn sanitized_ident(raw: Seq<char>) -> Seq<char> {
    let body = seq!['o', 'u', 't', '_'] + raw.map_values(|c: char| ident_char(c));
    if is_ascii_digit(body.last()) {
        body.push('_')
    } else {
        body
    }
}

pub fn sanitize_ident(raw: &str) -> (r: String)
    ensures
        r@ == sanitized_ident(raw@),
{
    let n = raw.unicode_len();
    let mut buf = String::new();
    push_char(&mut buf, 'o');
    push_char(&mut buf, 'u');
    push_char(&mut buf, 't');
    push_char(&mut buf, '_');
    let ghost prefix = seq!['o', 'u', 't', '_'];
    assert(buf@ =~= prefix + raw@.take(0).map_values(|c: char| ident_char(c)));
    let mut i: usize = 0;
    while i < n
        invariant
            n == raw@.len(),
            i <= n,
            prefix == seq!['o', 'u', 't', '_'],
            buf@ == prefix + raw@.take(i as int).map_values(|c: char| ident_char(c)),
        decreases n - i,
    {
        let ch = raw.get_char(i);
        if char_is_ascii_alnum(ch) || ch == '_' {
            push_char(&mut buf, char_to_ascii_lower(ch));
        } else {
            push_char(&mut buf, '_');
        }
        proof {
            assert(raw@.take(i + 1).map_values(|c: char| ident_char(c)) =~= raw@.take(i as int).map_values(
                |c: char| ident_char(c),
            ).push(ident_char(ch)));
        }
        i = i + 1;
    }
    proof {
        assert(raw@.take(n as int) =~= raw@);
    }
    let last = buf.as_str().get_char(buf.as_str().unicode_len() - 1);
    if '0' <= last && last <= '9' {
        push_char(&mut buf, '_');
    }
    buf
}

/// `s` with a leading `/` unless it already starts with one.
pub open spec fn rooted(s: Seq<char>) -> Seq<char> {
    if s.len() > 0 && s[0] == '/' {
        s
    } else {
        seq!['/'] + s
    }
}

/// Writes a path relative to the manifest directory the way the generated
/// `concat!` expects it: forward slashes and a leading `/`.
pub fn normalize_relative(relative: &str) -> (r: String)
    ensures
        r@ == rooted(unix_path(relative@)),
{
    let relative_unix = to_unix(relative);
    let len = relative_unix.as_str().unicode_len();
    if len > 0 && relative_unix.as_str().get_char(0) == '/' {
        relative_unix
    } else {
        let mut out = String::new();
        push_char(&mut out, '/');
        out.append(relative_unix.as_str());
        assert(out@ =~= seq!['/'] + unix_path(relative@));
        out
    }
}

/// What [`normalize_stripped`] writes: the part of `path` below the
/// manifest directory when there is one, else `path` itself.
pub open spec fn stripped_normal(stripped: Option<Seq<char>>, path: Seq<char>) -> Seq<char> {
    match stripped {
        Some(rel) => rooted(unix_path(rel)),
        None => rooted(unix_path(path)),
    }
}

/// Writes `stripped`, the part of `path` below the manifest directory, as
/// [`normalize_relative`] does; `path` itself when it does not lie below it.
pub fn normalize_stripped(stripped: Option<String>, path: &str) -> (r: String)
    ensures
        r@ == stripped_normal(
            match stripped {
                Some(rel) => Some(rel@),
                None => None,
            },
            path@,
        ),
{
    match stripped {
        Some(rel) => normalize_relative(rel.as_str()),
        None => normalize_relative(path),
    }
}

/// `s` is one or more plain components joined by single `/`: no leading,
/// trailing or doubled separator, no `\\` or `:`, and no component `.` or
/// `..`. Such a path has the same components on every platform.
pub open spec fn plain_relative(s: Seq<char>) -> bool {
    &&& s.len() > 0
    &&& forall|i: int| 0 <= i < s.len() ==> #[trigger] s[i] != '\\' && s[i] != ':'
    &&& forall|i: int| 0 <= i < s.len() && #[trigger] s[i] == '/' ==> 0 < i < s.len() - 1 && s[i + 1] != '/'
    &&& forall|i: int|
        0 <= i < s.len() && #[trigger] s[i] == '.' && (i == 0 || s[i - 1] == '/') ==> {
            &&& i + 1 < s.len()
            &&& s[i + 1] != '/'
            &&& s[i + 1] == '.' ==> i + 2 < s.len() && s[i + 2] != '/'
        }
}

/// `p` is a plain path, relative or with one leading `/`.
pub open spec fn plain_path(p: Seq<char>) -> bool {
    plain_relative(p) || (p.len() > 1 && p[0] == '/' && plain_relative(p.skip(1)))
}

/// `path` is the plain path `base`, a `/`, and a plain relative path (the
/// part of `path` below `base`).
pub open spec fn plainly_below(base: Seq<char>, path: Seq<char>) -> bool {
    &&& plain_path(base)
    &&& path.len() > base.len() + 1
    &&& path.take(base.len() as int) == base
    &&& path[base.len() as int] == '/'
    &&& plain_relative(path.skip(base.len() as int + 1))
}

/// What [`normalize_for_concat`] writes for a plain `path` and a plain
/// manifest directory `base`: the part below `base` when `path` lies below
/// it, `/` when `path` is `base`, and `path` itself otherwise, each with a
/// leading `/`.
pub open spec fn plain_normal(base: Seq<char>, path: Seq<char>) -> Seq<char> {
    if plainly_below(base, path) {
        rooted(unix_path(path.skip(base.len() as int + 1)))
    } else if path == base {
        seq!['/']
    } else {
        rooted(unix_path(path))
    }
}

/// The path of `path` below `manifest_dir` (or `path` itself when it does
/// not lie below it), written as [`normalize_relative`] does. For plain
/// paths the result is [`plain_normal`]; [`normalize_stripped`] states
/// what is written for any outcome of the strip.
pub fn normalize_for_concat(manifest_dir: &str, path: &str) -> (r: String)
    ensures
        exists|stripped: Option<Seq<char>>| r@ == stripped_normal(stripped, path@),
        r@.len() > 0 && r@[0] == '/',
        plainly_below(manifest_dir@, path@) ==> r@ == rooted(unix_path(path@.skip(manifest_dir@.len() as int + 1))),
        plain_path(manifest_dir@) && plain_path(path@) ==> r@ == plain_normal(manifest_dir@, path@),
{
    let stripped = strip_path_prefix(path, manifest_dir);
    let ghost sv: Option<Seq<char>> = match &stripped {
        Some(rel) => Some(rel@),
        None => None,
    };
    let r = normalize_stripped(stripped, path);
    assert(r@ == stripped_normal(sv, path@));
    proof {
        if path@ == manifest_dir@ && !plainly_below(manifest_dir@, path@) && plain_path(manifest_dir@) {
            assert(unix_path(Seq::<char>::empty()) =~= Seq::<char>::empty());
            assert(rooted(Seq::<char>::empty()) =~= seq!['/']);
        }
    }
    r
}

/// `Path::strip_prefix` followed by `Path::to_string_lossy`: the part of
/// `path` after the leading components that make up `base`, or `None`
/// when `base` is not a prefix of `path`. The documentation says the
/// result, joined onto `base`, yields `path`, and that a path's components
/// drop repeated separators and `.`. So when `path` is plainly `base`, a
/// `/` and a plain relative `rel` (see [`plainly_below`]), whose
/// components read the same on every platform, the result is `rel`. A
/// path stripped of itself leaves the empty path. When both are plain (see
/// [`plain_path`]) and neither of these holds, `base` is not a
/// whole-component prefix of `path`, which the documentation says fails.
/// For paths that are not plain the split depends on the platform and
/// nothing is stated.
#[verifier::external_body]
fn strip_path_prefix(path: &str, base: &str) -> (r: Option<String>)
    ensures
        plainly_below(base@, path@) ==> r is Some && r->Some_0@ == path@.skip(base@.len() as int + 1),
        plain_path(base@) && path@ == base@ ==> r is Some && r->Some_0@.len() == 0,
        plain_path(base@) && plain_path(path@) && !plainly_below(base@, path@) && path@ != base@ ==> r is None,
{
    std::path::Path::new(path).strip_prefix(base).ok().map(|p| p.to_string_lossy().into_owned())
}

/// One task of a flow description.
pub struct TaskConfig {
    pub name: String,
    pub dependencies: Vec<String>,
    pub output: String,
    pub builder: String,
}

/// A flow description: its source tasks, its processors and its sink.
pub struct FlowConfig {
    pub source: Vec<TaskConfig>,
    pub processor: Vec<TaskConfig>,
    pub sink: TaskConfig,
}

/// The content of one flow file.
pub struct FlowFile {
    pub flow: FlowConfig,
}

/// The list of flow files named by the flow index.
pub struct FlowPathList {
    pub paths: Vec<String>,
}

/// The content of the flow index file.
pub struct FlowPathIndex {
    pub flow_path: FlowPathList,
}

/// A task of a flow, with whether it is a source task.
pub struct Node {
    pub name: String,
    pub dependencies: Vec<String>,
    pub output: String,
    pub builder: String,
    pub is_source: bool,
}

pub open spec fn node_outputs(nodes: Seq<Node>) -> Seq<Seq<char>> {
    nodes.map_values(|n: Node| n.output@)
}

pub open spec fn node_deps(node: Node) -> Seq<Seq<char>> {
    node.dependencies@.map_values(|d: String| d@)
}

/// Node `j` is the first node whose output repeats the output of an
/// earlier node.
pub open spec fn first_duplicate_output(outs: Seq<Seq<char>>, j: int) -> bool {
    &&& 0 <= j < outs.len()
    &&& outs.take(j).no_duplicates()
    &&& outs.take(j).contains(outs[j])
}

/// Every dependency names the output of some node.
pub open spec fn deps_known(nodes: Seq<Node>) -> bool {
    forall|i: int, k: int|
        0 <= i < nodes.len() && 0 <= k < node_deps(nodes[i]).len() ==> node_outputs(nodes).contains(
            #[trigger] node_deps(nodes[i])[k],
        )
}

/// Dependency `k` of node `i` is the first (in node order, then in
/// dependency order) that names no output.
pub open spec fn first_unknown_dep(nodes: Seq<Node>, i: int, k: int) -> bool {
    let outs = node_outputs(nodes);
    &&& 0 <= i < nodes.len()
    &&& 0 <= k < node_deps(nodes[i]).len()
    &&& !outs.contains(node_deps(nodes[i])[k])
    &&& forall|i2: int, k2: int|
        0 <= i2 < i && 0 <= k2 < node_deps(nodes[i2]).len() ==> outs.contains(
            #[trigger] node_deps(nodes[i2])[k2],
        )
    &&& forall|k2: int| 0 <= k2 < k ==> outs.contains(#[trigger] node_deps(nodes[i])[k2])
}

/// The node whose output is `d`.
pub open spec fn producer(outs: Seq<Seq<char>>, d: Seq<char>) -> usize {
    (choose|j: int| 0 <= j < outs.len() && outs[j] == d) as usize
}

/// `node_preds(nodes)[i]` lists the producers of the dependencies of node
/// `i`, in dependency order.
pub open spec fn node_preds(nodes: Seq<Node>) -> Seq<Seq<usize>> {
    Seq::new(
        nodes.len(),
        |i: int| node_deps(nodes[i]).map_values(|d: Seq<char>| producer(node_outputs(nodes), d)),
    )
}

pub open spec fn duplicate_output_message(output: Seq<char>, name: Seq<char>) -> Seq<char> {
    "duplicate output '"@ + output + "' for task '"@ + name + "'"@
}

pub open spec fn unknown_dependency_message(name: Seq<char>, dep: Seq<char>) -> Seq<char> {
    "task '"@ + name + "' references unknown dependency output '"@ + dep + "'"@
}

pub open spec fn cycle_message() -> Seq<char> {
    "flow dependency graph has cycle"@
}

/// `a + x + b + y + c`.
fn join5(a: &str, x: &str, b: &str, y: &str, c: &str) -> (r: String)
    ensures
        r@ == a@ + x@ + b@ + y@ + c@,
{
    let mut r = String::new();
    r.append(a);
    r.append(x);
    r.append(b);
    r.append(y);
    r.append(c);
    assert(r@ =~= a@ + x@ + b@ + y@ + c@);
    r
}

/// The first node below `limit` whose output is `name`.
fn find_output(nodes: &[Node], limit: usize, name: &String) -> (r: Option<usize>)
    requires
        limit <= nodes@.len(),
    ensures
        r matches Some(j) ==> j < limit && node_outputs(nodes@)[j as int] == name@ && !node_outputs(
            nodes@,
        ).take(j as int).contains(name@),
        r is None ==> !node_outputs(nodes@).take(limit as int).contains(name@),
{
    let ghost outs = node_outputs(nodes@);
    let mut j: usize = 0;
    while j < limit
        invariant
            limit <= nodes@.len(),
            outs == node_outputs(nodes@),
            j <= limit,
            !outs.take(j as int).contains(name@),
        decreases limit - j,
    {
        if nodes[j].output == *name {
            return Some(j);
        }
        proof {
            assert(outs[j as int] != name@);
            let tk = outs.take(j + 1);
            if tk.contains(name@) {
                let i = choose|i: int| 0 <= i < tk.len() && tk[i] == name@;
                if i < j {
                    assert(outs.take(j as int)[i] == name@);
                }
            }
        }
        j = j + 1;
    }
    None
}

/// Orders the nodes so that every node comes after the producers of its
/// dependencies: Kahn's algorithm, layer after layer, the first layer by
/// index and each later one in the order in which its nodes become ready
/// (the order of a first-in first-out queue). Fails on a repeated
/// output, on a dependency that names no output, and on a cycle, in this
/// order of precedence.
pub fn topo_sort(nodes: &[Node]) -> (r: Result<Vec<usize>, String>)
    ensures
        r is Ok <==> node_outputs(nodes@).no_duplicates() && deps_known(nodes@) && !has_cycle(
            node_preds(nodes@),
        ),
        forall|j: int|
            first_duplicate_output(node_outputs(nodes@), j) ==> (r matches Err(m) && m@
                == duplicate_output_message(nodes@[j].output@, nodes@[j].name@)),
        forall|i: int, k: int|
            node_outputs(nodes@).no_duplicates() && first_unknown_dep(nodes@, i, k) ==> (r matches Err(
                m,
            ) && m@ == unknown_dependency_message(nodes@[i].name@, node_deps(nodes@[i])[k])),
        node_outputs(nodes@).no_duplicates() && deps_known(nodes@) && has_cycle(node_preds(nodes@)) ==> (
        r matches Err(m) && m@ == cycle_message()),
        r matches Ok(order) ==> exists|layers: Seq<Seq<usize>>|
            is_layering(node_preds(nodes@), layers) && ready_layers(
                node_preds(nodes@),
                succs_in_order(node_preds(nodes@)),
                layers,
            ) && order@ == flatten(layers),
        r matches Ok(order) ==> is_topological_order(node_preds(nodes@), order@),
{
    let n = nodes.len();
    let ghost outs = node_outputs(nodes@);
    let mut idx: usize = 0;
    while idx < n
        invariant
            n == nodes@.len(),
            outs == node_outputs(nodes@),
            idx <= n,
            outs.take(idx as int).no_duplicates(),
        decreases n - idx,
    {
        let found = find_output(nodes, idx, &nodes[idx].output);
        if let Some(j0) = found {
            proof {
                assert(outs[idx as int] == nodes@[idx as int].output@);
                assert(outs.take(idx as int)[j0 as int] == outs[idx as int]);
                assert(first_duplicate_output(outs, idx as int));
                assert forall|j: int| first_duplicate_output(outs, j) implies j == idx by {
                    if j < idx {
                        let i2 = choose|i2: int| 0 <= i2 < j && outs.take(j)[i2] == outs[j];
                        assert(outs.take(idx as int)[i2] == outs.take(idx as int)[j]);
                    } else if j > idx {
                        assert(outs.take(j)[idx as int] == outs[idx as int]);
                        let i2 = choose|i2: int| 0 <= i2 < idx && outs.take(idx as int)[i2] == outs[idx as int];
                        assert(outs.take(j)[i2] == outs[idx as int]);
                    }
                }
            }
            return Err(join5("duplicate output '", nodes[idx].output.as_str(), "' for task '", nodes[idx].name.as_str(), "'"));
        }
        proof {
            let t = outs.take(idx + 1);
            assert(t =~= outs.take(idx as int).push(outs[idx as int]));
            assert forall|a: int, b: int| 0 <= a < t.len() && 0 <= b < t.len() && a != b implies t[a] != t[b] by {
                if a == idx && b < idx {
                    assert(outs.take(idx as int)[b] == t[b]);
                }
                if b == idx && a < idx {
                    assert(outs.take(idx as int)[a] == t[a]);
                }
            }
        }
        idx = idx + 1;
    }
    proof {
        assert(outs.take(n as int) =~= outs);
        assert forall|j: int| !first_duplicate_output(outs, j) by {
            if 0 <= j < outs.len() && outs.take(j).contains(outs[j]) {
                let i2 = choose|i2: int| 0 <= i2 < j && outs.take(j)[i2] == outs[j];
                assert(outs[i2] == outs[j]);
            }
        }
    }
    let ghost preds = node_preds(nodes@);
    let mut dag = Dag::new(n);
    let mut idx: usize = 0;
    while idx < n
        invariant
            n == nodes@.len(),
            outs == node_outputs(nodes@),
            outs.no_duplicates(),
            preds == node_preds(nodes@),
            idx <= n,
            dag.wf(),
            dag.preds().len() == n,
            forall|i: int| 0 <= i < idx ==> #[trigger] dag.preds()[i] == preds[i],
            forall|i: int| idx <= i < n ==> #[trigger] dag.preds()[i] == Seq::<usize>::empty(),
            forall|i2: int, k2: int|
                0 <= i2 < idx && 0 <= k2 < node_deps(nodes@[i2]).len() ==> outs.contains(
                    #[trigger] node_deps(nodes@[i2])[k2],
                ),
            dag.succ_lists().len() == n,
            forall|u: int| 0 <= u < n ==> #[trigger] dag.succ_lists()[u] == edges_from(preds, u as usize, idx as nat),
        decreases n - idx,
    {
        let deps = &nodes[idx].dependencies;
        let mut k: usize = 0;
        while k < deps.len()
            invariant
                n == nodes@.len(),
                outs == node_outputs(nodes@),
                outs.no_duplicates(),
                preds == node_preds(nodes@),
                idx < n,
                *deps == nodes@[idx as int].dependencies,
                k <= deps@.len(),
                dag.wf(),
                dag.preds().len() == n,
                forall|i: int| 0 <= i < idx ==> #[trigger] dag.preds()[i] == preds[i],
                dag.preds()[idx as int] == preds[idx as int].take(k as int),
                forall|i: int| idx < i < n ==> #[trigger] dag.preds()[i] == Seq::<usize>::empty(),
                forall|i2: int, k2: int|
                    0 <= i2 < idx && 0 <= k2 < node_deps(nodes@[i2]).len() ==> outs.contains(
                        #[trigger] node_deps(nodes@[i2])[k2],
                    ),
                forall|k2: int| 0 <= k2 < k ==> outs.contains(#[trigger] node_deps(nodes@[idx as int])[k2]),
                dag.succ_lists().len() == n,
                forall|u: int|
                    0 <= u < n ==> #[trigger] dag.succ_lists()[u] == edges_from(preds, u as usize, idx as nat) + copies(
                        idx,
                        count_of(preds[idx as int].take(k as int), u as usize),
                    ),
            decreases deps@.len() - k,
        {
            let dep = &deps[k];
            match find_output(nodes, n, dep) {
                None => {
                    proof {
                        assert(outs.take(n as int) =~= outs);
                        assert(node_deps(nodes@[idx as int])[k as int] == dep@);
                        assert(first_unknown_dep(nodes@, idx as int, k as int));
                        assert forall|i: int, k3: int|
                            first_unknown_dep(nodes@, i, k3) implies i == idx && k3 == k by {
                            if i < idx {
                                assert(outs.contains(node_deps(nodes@[i])[k3]));
                            } else if i > idx {
                                assert(outs.contains(node_deps(nodes@[idx as int])[k as int]));
                            } else if k3 < k {
                                assert(outs.contains(node_deps(nodes@[i])[k3]));
                            } else if k3 > k {
                                assert(outs.contains(node_deps(nodes@[idx as int])[k as int]));
                            }
                        }
                        assert(!deps_known(nodes@));
                    }
                    return Err(join5(
                        "task '",
                        nodes[idx].name.as_str(),
                        "' references unknown dependency output '",
                        dep.as_str(),
                        "'",
                    ));
                },
                Some(from) => {
                    proof {
                        assert(outs.take(n as int) =~= outs);
                        let d = node_deps(nodes@[idx as int])[k as int];
                        assert(d == dep@);
                        assert(outs[from as int] == d);
                        let c = choose|j: int| 0 <= j < outs.len() && outs[j] == d;
                        assert(c == from);
                        assert(producer(outs, d) == from);
                        assert(preds[idx as int][k as int] == from);
                        assert(dag.preds()[idx as int].len() == k);
                    }
                    let ghost sl0 = dag.succ_lists();
                    dag.add_edge(from, idx);
                    proof {
                        assert forall|u: int| 0 <= u < n implies #[trigger] dag.succ_lists()[u] == edges_from(
                            preds,
                            u as usize,
                            idx as nat,
                        ) + copies(idx, count_of(preds[idx as int].take(k + 1), u as usize)) by {
                            lemma_count_of_take(preds[idx as int], k as int, u as usize);
                            let c = count_of(preds[idx as int].take(k as int), u as usize);
                            if u == from {
                                assert(copies(idx, c + 1) =~= copies(idx, c).push(idx));
                            }
                        }
                        assert(preds[idx as int].take(k + 1) =~= preds[idx as int].take(k as int).push(from));
                        assert(outs.contains(node_deps(nodes@[idx as int])[k as int]));
                    }
                },
            }
            k = k + 1;
        }
        proof {
            assert(preds[idx as int].take(deps@.len() as int) =~= preds[idx as int]);
            assert forall|u: int| 0 <= u < n implies #[trigger] dag.succ_lists()[u] == edges_from(
                preds,
                u as usize,
                (idx + 1) as nat,
            ) by {
                assert(edges_from(preds, u as usize, (idx + 1) as nat) == edges_from(preds, u as usize, idx as nat)
                    + copies(idx, count_of(preds[idx as int], u as usize)));
            }
        }
        idx = idx + 1;
    }
    proof {
        assert(dag.preds() =~= preds);
        assert(dag.succ_lists() =~= succs_in_order(preds));
    }
    let (layers, complete) = dag.layers();
    if !complete {
        let msg = String::from_str("flow dependency graph has cycle");
        return Err(msg);
    }
    let order = flatten_layers(&layers);
    proof {
        law_layers_give_topological_order(node_preds(nodes@), layer_ids(layers@));
        assert(ready_layers(node_preds(nodes@), succs_in_order(node_preds(nodes@)), layer_ids(layers@)));
    }
    Ok(order)
}

/// The Unicode `White_Space` characters, which `str::trim` removes.
pub open spec fn is_unicode_whitespace(c: char) -> bool {
    ||| ('\u{9}' <= c && c <= '\u{d}')
    ||| c == ' '
    ||| c == '\u{85}'
    ||| c == '\u{a0}'
    ||| c == '\u{1680}'
    ||| ('\u{2000}' <= c && c <= '\u{200a}')
    ||| c == '\u{2028}'
    ||| c == '\u{2029}'
    ||| c == '\u{202f}'
    ||| c == '\u{205f}'
    ||| c == '\u{3000}'
}

/// `s` trims to the empty string.
pub open spec fn is_blank(s: Seq<char>) -> bool {
    forall|i: int| 0 <= i < s.len() ==> is_unicode_whitespace(#[trigger] s[i])
}

fn char_is_whitespace(c: char) -> (r: bool)
    ensures
        r == is_unicode_whitespace(c),
{
    ('\u{9}' <= c && c <= '\u{d}') || c == ' ' || c == '\u{85}' || c == '\u{a0}' || c == '\u{1680}'
        || ('\u{2000}' <= c && c <= '\u{200a}') || c == '\u{2028}' || c == '\u{2029}' || c == '\u{202f}'
        || c == '\u{205f}' || c == '\u{3000}'
}

fn str_is_blank(s: &str) -> (r: bool)
    ensures
        r == is_blank(s@),
{
    let n = s.unicode_len();
    let mut i: usize = 0;
    while i < n
        invariant
            n == s@.len(),
            i <= n,
            forall|j: int| 0 <= j < i ==> is_unicode_whitespace(#[trigger] s@[j]),
        decreases n - i,
    {
        if !char_is_whitespace(s.get_char(i)) {
            return false;
        }
        i = i + 1;
    }
    true
}

/// What is wrong with `node` on its own, if anything.
pub open spec fn node_error(node: Node) -> Option<Seq<char>> {
    if is_blank(node.builder@) {
        Some("task '"@ + node.name@ + "' has empty builder expression"@)
    } else if node.is_source && node.dependencies@.len() != 0 {
        Some("source task '"@ + node.name@ + "' must not have dependencies"@)
    } else if !node.is_source && node.dependencies@.len() == 0 {
        Some("non-source task '"@ + node.name@ + "' must have at least one dependency"@)
    } else {
        None
    }
}

/// Node `i` is the first node that is wrong on its own.
pub open spec fn first_node_error(nodes: Seq<Node>, i: int) -> bool {
    &&& 0 <= i < nodes.len()
    &&& node_error(nodes[i]) is Some
    &&& forall|j: int| 0 <= j < i ==> node_error(#[trigger] nodes[j]) is None
}

/// The parts separated by `sep`.
pub open spec fn join(parts: Seq<Seq<char>>, sep: Seq<char>) -> Seq<char>
    decreases parts.len(),
{
    if parts.len() == 0 {
        Seq::empty()
    } else if parts.len() == 1 {
        parts[0]
    } else {
        join(parts.drop_last(), sep) + sep + parts.last()
    }
}

/// The dependency argument of `with_dependencies`: the variable of the
/// single dependency, or the tuple of the variables.
pub open spec fn deps_expr(deps: Seq<Seq<char>>) -> Seq<char> {
    if deps.len() == 1 {
        sanitized_ident(deps[0])
    } else {
        "("@ + join(deps.map_values(|d: Seq<char>| sanitized_ident(d)), ", "@) + ")"@
    }
}

/// The statement that commits `node` to the generated flow.
pub open spec fn node_statement(node: Node) -> Seq<char> {
    if node.is_source {
        "    let "@ + sanitized_ident(node.output@) + " = flow.commit_source_task(\""@ + node.name@ + "\", "@
            + node.builder@ + ");\n"@
    } else {
        "    let "@ + sanitized_ident(node.output@) + " = flow.commit_task(\""@ + node.name@ + "\", "@
            + node.builder@ + ").with_dependencies("@ + deps_expr(node_deps(node)) + ");\n"@
    }
}

pub open spec fn concat(parts: Seq<Seq<char>>) -> Seq<char>
    decreases parts.len(),
{
    if parts.len() == 0 {
        Seq::empty()
    } else {
        concat(parts.drop_last()) + parts.last()
    }
}

/// The source of the function `func_name` that builds the flow, committing
/// the nodes in `order`.
pub open spec fn flow_builder_source(func_name: Seq<char>, nodes: Seq<Node>, order: Seq<usize>) -> Seq<char> {
    "fn "@ + func_name
        + "() -> (taskflow::tf::flow::Flow, taskflow::tf::flow::TaskId) {\n    let mut flow = taskflow::tf::flow::Flow::new();\n"@
        + concat(order.map_values(|i: usize| node_statement(nodes[i as int]))) + "    (flow, "@ + sink_id_expr(nodes)
        + ")\n}\n"@
}

/// The id of the flow's sink, the last node: its output handle's id. A
/// flow without nodes names task 0, which it does not hold.
pub open spec fn sink_id_expr(nodes: Seq<Node>) -> Seq<char> {
    if nodes.len() > 0 {
        sanitized_ident(nodes.last().output@) + ".id"@
    } else {
        "taskflow::tf::flow::TaskId(0)"@
    }
}

fn render_deps_expr(deps: &Vec<String>) -> (r: String)
    requires
        deps@.len() > 0,
    ensures
        r@ == deps_expr(deps@.map_values(|d: String| d@)),
{
    let ghost ds = deps@.map_values(|d: String| d@);
    if deps.len() == 1 {
        return sanitize_ident(deps[0].as_str());
    }
    let ghost vars = ds.map_values(|d: Seq<char>| sanitized_ident(d));
    let mut out = String::from_str("(");
    let first = sanitize_ident(deps[0].as_str());
    out.append(first.as_str());
    proof {
        assert(vars.take(1) =~= seq![vars[0]]);
        assert(join(vars.take(1), ", "@) == vars[0]);
    }
    let mut i: usize = 1;
    while i < deps.len()
        invariant
            ds == deps@.map_values(|d: String| d@),
            vars == ds.map_values(|d: Seq<char>| sanitized_ident(d)),
            1 <= i <= deps@.len(),
            out@ == "("@ + join(vars.take(i as int), ", "@),
        decreases deps@.len() - i,
    {
        let v = sanitize_ident(deps[i].as_str());
        out.append(", ");
        out.append(v.as_str());
        proof {
            let t = vars.take(i + 1);
            assert(t.drop_last() =~= vars.take(i as int));
            assert(t.last() == v@);
            assert(out@ =~= "("@ + join(t, ", "@));
        }
        i = i + 1;
    }
    out.append(")");
    proof {
        assert(vars.take(deps@.len() as int) =~= vars);
    }
    out
}

fn render_node_statement(node: &Node) -> (r: String)
    requires
        !node.is_source ==> node.dependencies@.len() > 0,
    ensures
        r@ == node_statement(*node),
{
    let var = sanitize_ident(node.output.as_str());
    let mut out = String::from_str("    let ");
    out.append(var.as_str());
    if node.is_source {
        out.append(" = flow.commit_source_task(\"");
        out.append(node.name.as_str());
        out.append("\", ");
        out.append(node.builder.as_str());
        out.append(");\n");
    } else {
        let deps = render_deps_expr(&node.dependencies);
        out.append(" = flow.commit_task(\"");
        out.append(node.name.as_str());
        out.append("\", ");
        out.append(node.builder.as_str());
        out.append(").with_dependencies(");
        out.append(deps.as_str());
        out.append(");\n");
    }
    assert(out@ =~= node_statement(*node));
    out
}

/// Checks every node, orders them with [`topo_sort`] and writes the source
/// of the function `func_name` that builds the flow.
pub fn render_flow_builder(func_name: &str, nodes: &[Node]) -> (r: Result<String, String>)
    ensures
        forall|i: int| first_node_error(nodes@, i) ==> (r matches Err(m) && m@ == node_error(nodes@[i])->Some_0),
        (forall|i: int| 0 <= i < nodes@.len() ==> node_error(#[trigger] nodes@[i]) is None) ==> {
            &&& r is Ok <==> node_outputs(nodes@).no_duplicates() && deps_known(nodes@) && !has_cycle(
                node_preds(nodes@),
            )
            &&& forall|j: int|
                first_duplicate_output(node_outputs(nodes@), j) ==> (r matches Err(m) && m@
                    == duplicate_output_message(nodes@[j].output@, nodes@[j].name@))
            &&& forall|i: int, k: int|
                node_outputs(nodes@).no_duplicates() && first_unknown_dep(nodes@, i, k) ==> (r matches Err(
                    m,
                ) && m@ == unknown_dependency_message(nodes@[i].name@, node_deps(nodes@[i])[k]))
            &&& node_outputs(nodes@).no_duplicates() && deps_known(nodes@) && has_cycle(
                node_preds(nodes@),
            ) ==> (r matches Err(m) && m@ == cycle_message())
            &&& r matches Ok(text) ==> exists|layers: Seq<Seq<usize>>|
                is_layering(node_preds(nodes@), layers) && ready_layers(
                    node_preds(nodes@),
                    succs_in_order(node_preds(nodes@)),
                    layers,
                ) && text@ == flow_builder_source(func_name@, nodes@, flatten(layers))
            &&& r matches Ok(text) ==> exists|order: Seq<usize>|
                is_topological_order(node_preds(nodes@), order) && text@ == flow_builder_source(
                    func_name@,
                    nodes@,
                    order,
                )
        },
{
    let n = nodes.len();
    let mut i: usize = 0;
    while i < n
        invariant
            n == nodes@.len(),
            i <= n,
            forall|j: int| 0 <= j < i ==> node_error(#[trigger] nodes@[j]) is None,
        decreases n - i,
    {
        let node = &nodes[i];
        let ghost err = node_error(*node);
        if str_is_blank(node.builder.as_str()) {
            let m = join3("task '", node.name.as_str(), "' has empty builder expression");
            proof { lemma_first_node_error_unique(nodes@, i as int); }
            return Err(m);
        }
        if node.is_source && node.dependencies.len() != 0 {
            let m = join3("source task '", node.name.as_str(), "' must not have dependencies");
            proof { lemma_first_node_error_unique(nodes@, i as int); }
            return Err(m);
        }
        if !node.is_source && node.dependencies.len() == 0 {
            let m = join3("non-source task '", node.name.as_str(), "' must have at least one dependency");
            proof { lemma_first_node_error_unique(nodes@, i as int); }
            return Err(m);
        }
        i = i + 1;
    }
    proof {
        assert forall|j: int| !first_node_error(nodes@, j) by {}
    }
    let order = topo_sort(nodes)?;
    let ghost layers = choose|layers: Seq<Seq<usize>>|
        is_layering(node_preds(nodes@), layers) && ready_layers(
            node_preds(nodes@),
            succs_in_order(node_preds(nodes@)),
            layers,
        ) && order@ == flatten(layers);
    assert(forall|j: int| 0 <= j < order@.len() ==> #[trigger] order@[j] < n);
    let mut body = String::from_str("fn ");
    body.append(func_name);
    body.append("() -> (taskflow::tf::flow::Flow, taskflow::tf::flow::TaskId) {\n    let mut flow = taskflow::tf::flow::Flow::new();\n");
    let ghost head = body@;
    let ghost stmts = order@.map_values(|k: usize| node_statement(nodes@[k as int]));
    let mut k: usize = 0;
    while k < order.len()
        invariant
            n == nodes@.len(),
            forall|j: int| 0 <= j < n ==> node_error(#[trigger] nodes@[j]) is None,
            forall|j: int| 0 <= j < order@.len() ==> #[trigger] order@[j] < n,
            stmts == order@.map_values(|k: usize| node_statement(nodes@[k as int])),
            k <= order@.len(),
            body@ == head + concat(stmts.take(k as int)),
        decreases order@.len() - k,
    {
        let idx = order[k];
        let stmt = render_node_statement(&nodes[idx]);
        body.append(stmt.as_str());
        proof {
            assert(node_error(nodes@[idx as int]) is None);
            assert(stmts.take(k + 1).drop_last() =~= stmts.take(k as int));
            assert(stmts.take(k + 1).last() == stmt@);
        }
        k = k + 1;
    }
    body.append("    (flow, ");
    if n > 0 {
        let sink = sanitize_ident(nodes[n - 1].output.as_str());
        body.append(sink.as_str());
        body.append(".id");
    } else {
        body.append("taskflow::tf::flow::TaskId(0)");
    }
    body.append(")\n}\n");
    proof {
        assert(stmts.take(order@.len() as int) =~= stmts);
        assert(body@ =~= flow_builder_source(func_name@, nodes@, flatten(layers)));
        assert(is_topological_order(node_preds(nodes@), order@));
    }
    Ok(body)
}

proof fn lemma_first_node_error_unique(nodes: Seq<Node>, i: int)
    requires
        0 <= i < nodes.len(),
        node_error(nodes[i]) is Some,
        forall|j: int| 0 <= j < i ==> node_error(#[trigger] nodes[j]) is None,
    ensures
        forall|j: int| first_node_error(nodes, j) ==> j == i,
{
    assert forall|j: int| first_node_error(nodes, j) implies j == i by {
        if j < i {
            assert(node_error(nodes[j]) is None);
        } else if j > i {
            assert(node_error(nodes[i]) is None);
        }
    }
}

/// `a + x + b`.
fn join3(a: &str, x: &str, b: &str) -> (r: String)
    ensures
        r@ == a@ + x@ + b@,
{
    let mut r = String::new();
    r.append(a);
    r.append(x);
    r.append(b);
    assert(r@ =~= a@ + x@ + b@);
    r
}

/// The characters of a `String` result.
pub open spec fn text_result(r: Result<String, String>) -> Result<Seq<char>, Seq<char>> {
    match r {
        Ok(t) => Ok(t@),
        Err(e) => Err(e@),
    }
}

/// What [`render_flow_builder`] returns for `func_name` and `nodes`: the
/// first node that is wrong on its own is reported; otherwise the outcome
/// of [`topo_sort`] is reported, or the source of the builder function
/// that commits the nodes layer after layer, in the order of
/// [`topo_sort`].
#[verifier::opaque]
pub open spec fn rendered_flow_builder(
    func_name: Seq<char>,
    nodes: Seq<Node>,
    r: Result<Seq<char>, Seq<char>>,
) -> bool {
    &&& forall|i: int| first_node_error(nodes, i) ==> r == Err::<Seq<char>, Seq<char>>(node_error(nodes[i])->Some_0)
    &&& (forall|i: int| 0 <= i < nodes.len() ==> node_error(#[trigger] nodes[i]) is None) ==> {
        &&& r is Ok <==> node_outputs(nodes).no_duplicates() && deps_known(nodes) && !has_cycle(node_preds(nodes))
        &&& forall|j: int|
            first_duplicate_output(node_outputs(nodes), j) ==> r == Err::<Seq<char>, Seq<char>>(
                duplicate_output_message(nodes[j].output@, nodes[j].name@),
            )
        &&& forall|i: int, k: int|
            node_outputs(nodes).no_duplicates() && first_unknown_dep(nodes, i, k) ==> r == Err::<
                Seq<char>,
                Seq<char>,
            >(unknown_dependency_message(nodes[i].name@, node_deps(nodes[i])[k]))
        &&& node_outputs(nodes).no_duplicates() && deps_known(nodes) && has_cycle(node_preds(nodes)) ==> r
            == Err::<Seq<char>, Seq<char>>(cycle_message())
        &&& r matches Ok(text) ==> exists|layers: Seq<Seq<usize>>|
            is_layering(node_preds(nodes), layers) && ready_layers(node_preds(nodes), succs_in_order(node_preds(nodes)), layers)
                && text == flow_builder_source(func_name, nodes, flatten(layers))
    }
}

/// The decimal digits of `n`.
pub open spec fn decimal(n: nat) -> Seq<char>
    decreases n,
{
    if n < 10 {
        seq![digit_char(n)]
    } else {
        decimal(n / 10).push(digit_char(n % 10))
    }
}

pub open spec fn digit_char(d: nat) -> char {
    (('0' as u32) + d) as char
}

/// Writes `n` in decimal.
pub fn decimal_string(n: usize) -> (r: String)
    ensures
        r@ == decimal(n as nat),
    decreases n,
{
    let d: u8 = (n % 10) as u8;
    let c = (48u8 + d) as char;
    if n < 10 {
        let mut r = String::new();
        push_char(&mut r, c);
        assert(r@ =~= decimal(n as nat));
        r
    } else {
        let mut r = decimal_string(n / 10);
        push_char(&mut r, c);
        r
    }
}

/// The nodes of a flow file: its sources, then its processors, then its sink.
pub open spec fn file_nodes(file: FlowFile) -> Seq<Node> {
    file.flow.source@.map_values(|t: TaskConfig| config_node(t, true)) + file.flow.processor@.map_values(
        |t: TaskConfig| config_node(t, false),
    ).push(config_node(file.flow.sink, false))
}

pub open spec fn config_node(t: TaskConfig, is_source: bool) -> Node {
    Node { name: t.name, dependencies: t.dependencies, output: t.output, builder: t.builder, is_source }
}

/// Lists the nodes of a flow file.
pub fn flow_nodes(file: FlowFile) -> (nodes: Vec<Node>)
    ensures
        nodes@ == file_nodes(file),
{
    let ghost f = file;
    let FlowFile { flow } = file;
    let FlowConfig { source, processor, sink } = flow;
    let mut nodes: Vec<Node> = Vec::new();
    let ghost src = source@;
    let ghost prc = processor@;
    let mut source = source;
    let mut processor = processor;
    let mut i: usize = 0;
    let total = source.len();
    while source.len() > 0
        invariant
            i + source@.len() == total,
            total == src.len(),
            source@ == src.skip(i as int),
            nodes@ == src.take(i as int).map_values(|t: TaskConfig| config_node(t, true)),
        decreases source@.len(),
    {
        let t = source.remove(0);
        proof {
            assert(src.skip(i as int)[0] == t);
            assert(src.take(i + 1) =~= src.take(i as int).push(t));
            assert(source@ =~= src.skip(i + 1));
        }
        nodes.push(Node { name: t.name, dependencies: t.dependencies, output: t.output, builder: t.builder, is_source: true });
        proof {
            assert(nodes@ =~= src.take(i + 1).map_values(|t: TaskConfig| config_node(t, true)));
        }
        i = i + 1;
    }
    let ghost first = nodes@;
    let mut i: usize = 0;
    let total = processor.len();
    proof {
        assert(src.take(src.len() as int) =~= src);
        assert(first + prc.take(0).map_values(|t: TaskConfig| config_node(t, false)) =~= first);
    }
    while processor.len() > 0
        invariant
            i + processor@.len() == total,
            total == prc.len(),
            processor@ == prc.skip(i as int),
            nodes@ == first + prc.take(i as int).map_values(|t: TaskConfig| config_node(t, false)),
        decreases processor@.len(),
    {
        let t = processor.remove(0);
        proof {
            assert(prc.skip(i as int)[0] == t);
            assert(prc.take(i + 1) =~= prc.take(i as int).push(t));
            assert(processor@ =~= prc.skip(i + 1));
        }
        nodes.push(Node { name: t.name, dependencies: t.dependencies, output: t.output, builder: t.builder, is_source: false });
        proof {
            assert(nodes@ =~= first + prc.take(i + 1).map_values(|t: TaskConfig| config_node(t, false)));
        }
        i = i + 1;
    }
    nodes.push(Node { name: sink.name, dependencies: sink.dependencies, output: sink.output, builder: sink.builder, is_source: false });
    proof {
        assert(prc.take(prc.len() as int) =~= prc);
        assert(nodes@ =~= file_nodes(f));
    }
    nodes
}

/// A flow file named by the flow index: how its location is shown in
/// messages, its path, and its content.
pub struct ResolvedFlow {
    pub display: String,
    pub path: String,
    pub file: FlowFile,
}

/// The name of the builder function of the `idx`-th flow.
pub open spec fn builder_fn_name(idx: nat) -> Seq<char> {
    "build_flow_"@ + decimal(idx)
}

/// The `concat!` expression that names a flow file relative to the
/// crate's manifest directory.
pub open spec fn path_expr(normalized: Seq<char>) -> Seq<char> {
    "concat!(env!(\"CARGO_MANIFEST_DIR\"), \""@ + normalized + "\")"@
}

/// The start of `build_flow_by_path`, which gives the flow of a path and
/// its sink's id.
pub open spec fn dispatch_head() -> Seq<char> {
    "pub fn build_flow_by_path(path: &str) -> Option<(taskflow::tf::flow::Flow, taskflow::tf::flow::TaskId)> {\n    match path {\n"@
}

/// The end of `build_flow_by_path`, then `run_flow_by_path`, which builds
/// the flow of a path and runs it to its sink.
pub open spec fn dispatch_tail() -> Seq<char> {
    "\n        _ => None,\n    }\n}\n\npub async fn run_flow_by_path(path: &str) -> Result<std::sync::Arc<dyn std::any::Any + Send + Sync>, taskflow::tf::errors::FlowError> {\n    let (mut flow, sink_id) = build_flow_by_path(path).ok_or_else(|| taskflow::tf::errors::FlowError::ConfigBuildError(format!(\"no flow configured for path {path}\")))?;\n    flow.run_with_sink_id(sink_id).await\n}\n\n"@
}

/// The module that lists the flow paths, dispatches from a path to its
/// builder function (`build_flow_by_path`, and `run_flow_by_path` that also
/// runs the flow), and defines the builder functions.
pub open spec fn module_source(normalized: Seq<Seq<char>>, builders: Seq<Seq<char>>) -> Seq<char> {
    let entries = Seq::new(normalized.len(), |i: int| "    "@ + path_expr(normalized[i]));
    let arms = Seq::new(
        normalized.len(),
        |i: int| "        "@ + path_expr(normalized[i]) + " => Some("@ + builder_fn_name(i as nat) + "()),"@,
    );
    "// @generated by taskflow-build. Do not edit manually.\npub const GENERATED_FLOW_PATHS: &[&str] = &[\n"@
        + join(entries, ",\n"@)
        + "\n];\n\n"@ + dispatch_head() + join(arms, "\n"@) + dispatch_tail() + join(builders, "\n"@) + "\n"@
}

/// `parts[i]` stands in `join(parts, sep)` starting at the returned place.
pub proof fn lemma_join_holds_part(parts: Seq<Seq<char>>, sep: Seq<char>, i: int) -> (at: int)
    requires
        0 <= i < parts.len(),
    ensures
        0 <= at,
        at + parts[i].len() <= join(parts, sep).len(),
        join(parts, sep).subrange(at, at + parts[i].len()) == parts[i],
    decreases parts.len(),
{
    if parts.len() == 1 {
        assert(join(parts, sep).subrange(0, parts[0].len() as int) =~= parts[0]);
        0
    } else {
        let init = join(parts.drop_last(), sep);
        if i < parts.len() - 1 {
            let at = lemma_join_holds_part(parts.drop_last(), sep, i);
            assert(parts.drop_last()[i] == parts[i]);
            assert(join(parts, sep).subrange(at, at + parts[i].len()) =~= init.subrange(at, at + parts[i].len()));
            at
        } else {
            let at: int = (init.len() + sep.len()) as int;
            assert(join(parts, sep).subrange(at, at + parts[i].len()) =~= parts.last());
            at
        }
    }
}

/// The generated dispatch sends each flow file's path to the builder
/// rendered from that file: for every `i`, the module holds the match arm
/// `path_expr(normalized[i]) => Some(build_flow_<i>()),`.
pub proof fn law_dispatch_calls_own_builder(normalized: Seq<Seq<char>>, builders: Seq<Seq<char>>, i: int)
    requires
        0 <= i < normalized.len(),
    ensures
        exists|at: int|
            0 <= at && at + (path_expr(normalized[i]) + " => Some("@ + builder_fn_name(i as nat) + "()),"@).len()
                <= module_source(normalized, builders).len() && #[trigger] module_source(normalized, builders).subrange(
                at,
                at + (path_expr(normalized[i]) + " => Some("@ + builder_fn_name(i as nat) + "()),"@).len(),
            ) == path_expr(normalized[i]) + " => Some("@ + builder_fn_name(i as nat) + "()),"@,
{
    let line = path_expr(normalized[i]) + " => Some("@ + builder_fn_name(i as nat) + "()),"@;
    let entries = Seq::new(normalized.len(), |k: int| "    "@ + path_expr(normalized[k]));
    let arms = Seq::new(
        normalized.len(),
        |k: int| "        "@ + path_expr(normalized[k]) + " => Some("@ + builder_fn_name(k as nat) + "()),"@,
    );
    let head = "// @generated by taskflow-build. Do not edit manually.\npub const GENERATED_FLOW_PATHS: &[&str] = &[\n"@
        + join(entries, ",\n"@) + "\n];\n\n"@ + dispatch_head();
    let tail = dispatch_tail() + join(builders, "\n"@) + "\n"@;
    let text = module_source(normalized, builders);
    assert(text =~= head + join(arms, "\n"@) + tail);
    let a = lemma_join_holds_part(arms, "\n"@, i);
    assert(arms[i] =~= "        "@ + line);
    reveal_strlit("        ");
    assert(arms[i].len() == 8 + line.len());
    let j = join(arms, "\n"@);
    assert(text.len() == head.len() + j.len() + tail.len());
    let at = head.len() + a + 8;
    assert forall|q: int| 0 <= q < j.len() implies #[trigger] text[head.len() + q] == j[q] by {}
    assert(text.subrange(at, at + line.len()) =~= arms[i].subrange(8, arms[i].len() as int)) by {
        assert forall|q: int| 0 <= q < line.len() implies text.subrange(at, at + line.len())[q] == arms[i].subrange(8, arms[i].len() as int)[q] by {
            assert(text[head.len() + (a + 8 + q)] == j[a + 8 + q]);
            assert(j.subrange(a, a + arms[i].len())[8 + q] == arms[i][8 + q]);
        }
    }
    assert(arms[i].subrange(8, arms[i].len() as int) =~= line);
}

/// The `i`-th flow file renders to a builder function.
pub open spec fn flow_renders(flows: Seq<ResolvedFlow>, i: int) -> bool {
    exists|b: Seq<char>| rendered_flow_builder(builder_fn_name(i as nat), file_nodes(flows[i].file), Ok(b))
}

/// The `i`-th flow file fails to render with message `e`.
pub open spec fn flow_fails_with(flows: Seq<ResolvedFlow>, i: int, e: Seq<char>) -> bool {
    rendered_flow_builder(builder_fn_name(i as nat), file_nodes(flows[i].file), Err(e))
}

/// Renders the module for the flow files `flows`, in order. The first flow
/// whose builder cannot be rendered is reported, prefixed with its location.
#[verifier::spinoff_prover]
pub fn generate_module(manifest_dir: &str, flows: Vec<ResolvedFlow>) -> (r: Result<String, String>)
    ensures
        r matches Err(m) ==> exists|i: int, e: Seq<char>|
            0 <= i < flows@.len() && #[trigger] flow_fails_with(flows@, i, e) && m@ == flows@[i].display@ + ": "@
                + e && forall|j: int| 0 <= j < i ==> #[trigger] flow_renders(flows@, j),
        r matches Ok(text) ==> exists|normalized: Seq<Seq<char>>, builders: Seq<Seq<char>>, stripped: Seq<Option<Seq<char>>>|
            #![trigger module_source(normalized, builders), stripped.len()]
            normalized.len() == flows@.len() && builders.len() == flows@.len() && stripped.len() == flows@.len() && (forall|i: int|
                0 <= i < flows@.len() ==> rendered_flow_builder(
                    builder_fn_name(i as nat),
                    #[trigger] file_nodes(flows@[i].file),
                    Ok(builders[i]),
                ) && normalized[i] == stripped_normal(stripped[i], flows@[i].path@) && (plainly_below(
                    manifest_dir@,
                    flows@[i].path@,
                ) ==> normalized[i] == rooted(unix_path(flows@[i].path@.skip(manifest_dir@.len() as int + 1))))
                    && (plain_path(manifest_dir@) && plain_path(flows@[i].path@) ==> normalized[i] == plain_normal(
                    manifest_dir@,
                    flows@[i].path@,
                ))) && text@
                == module_source(
                normalized,
                builders,
            ),
{
    let ghost fl = flows@;
    let mut remaining = flows;
    let total = remaining.len();
    let mut idx: usize = 0;
    let mut entries = String::new();
    let mut arms = String::new();
    let mut builders = String::new();
    let ghost mut normalized: Seq<Seq<char>> = Seq::empty();
    let ghost mut built: Seq<Seq<char>> = Seq::empty();
    let ghost mut strips: Seq<Option<Seq<char>>> = Seq::empty();
    while remaining.len() > 0
        invariant
            fl == flows@,
            idx + remaining@.len() == total,
            total == fl.len(),
            remaining@ == fl.skip(idx as int),
            normalized.len() == idx,
            built.len() == idx,
            strips.len() == idx,
            forall|i: int|
                0 <= i < idx ==> rendered_flow_builder(
                    builder_fn_name(i as nat),
                    #[trigger] file_nodes(fl[i].file),
                    Ok(built[i]),
                ),
            forall|i: int| 0 <= i < idx ==> normalized[i] == stripped_normal(#[trigger] strips[i], fl[i].path@),
            forall|i: int|
                0 <= i < idx && plainly_below(manifest_dir@, fl[i].path@) ==> #[trigger] normalized[i] == rooted(
                    unix_path(fl[i].path@.skip(manifest_dir@.len() as int + 1)),
                ),
            forall|i: int|
                0 <= i < idx && plain_path(manifest_dir@) && plain_path(fl[i].path@) ==> #[trigger] normalized[i]
                    == plain_normal(manifest_dir@, fl[i].path@),
            entries@ == join(Seq::new(idx as nat, |i: int| "    "@ + path_expr(normalized[i])), ",\n"@),
            arms@ == join(
                Seq::new(
                    idx as nat,
                    |i: int| "        "@ + path_expr(normalized[i]) + " => Some("@ + builder_fn_name(i as nat) + "()),"@,
                ),
                "\n"@,
            ),
            builders@ == join(built, "\n"@),
        decreases remaining@.len(),
    {
        let flow = remaining.remove(0);
        proof {
            assert(fl.skip(idx as int)[0] == flow);
            assert(remaining@ =~= fl.skip(idx + 1));
        }
        let ghost flow_g = flow;
        let ResolvedFlow { display, path, file } = flow;
        proof {
            assert(file == flow_g.file);
            assert(display == flow_g.display);
            assert(path == flow_g.path);
            assert(flow_g == fl[idx as int]);
        }
        let ghost file_g = file;
        let nodes = flow_nodes(file);
        proof {
            assert(nodes@ == file_nodes(fl[idx as int].file));
        }
        let mut func_name = String::from_str("build_flow_");
        let digits = decimal_string(idx);
        func_name.append(digits.as_str());
        let rendered = render_flow_builder(func_name.as_str(), nodes.as_slice());
        let ghost rendered_view = text_result(rendered);
        proof {
            assert(func_name@ == builder_fn_name(idx as nat));
            assert(rendered_flow_builder(func_name@, nodes@, text_result(rendered))) by {
                reveal(rendered_flow_builder);
            }
        }
        let builder_src = match rendered {
            Ok(b) => b,
            Err(e) => {
                let m = join3(display.as_str(), ": ", e.as_str());
                proof {
                    assert(rendered_view == Err::<Seq<char>, Seq<char>>(e@));
                    assert(flow_fails_with(fl, idx as int, e@));
                    assert(m@ =~= fl[idx as int].display@ + ": "@ + e@);
                    assert forall|j: int| 0 <= j < idx implies #[trigger] flow_renders(fl, j) by {
                        assert(rendered_flow_builder(builder_fn_name(j as nat), file_nodes(fl[j].file), Ok(built[j])));
                    }
                }
                return Err(m);
            },
        };
        let norm = normalize_for_concat(manifest_dir, path.as_str());
        let mut expr = String::from_str("concat!(env!(\"CARGO_MANIFEST_DIR\"), \"");
        expr.append(norm.as_str());
        expr.append("\")");
        assert(expr@ =~= path_expr(norm@));
        let ghost old_entries = Seq::new(idx as nat, |i: int| "    "@ + path_expr(normalized[i]));
        let ghost old_arms = Seq::new(
            idx as nat,
            |i: int| "        "@ + path_expr(normalized[i]) + " => Some("@ + builder_fn_name(i as nat) + "()),"@,
        );
        let ghost old_built = built;
        let ghost old_norm = normalized;
        let ghost old_strips = strips;
        let ghost st_new = choose|st: Option<Seq<char>>| norm@ == stripped_normal(st, path@);
        if idx > 0 {
            entries.append(",\n");
            arms.append("\n");
            builders.append("\n");
        }
        entries.append("    ");
        entries.append(expr.as_str());
        arms.append("        ");
        arms.append(expr.as_str());
        arms.append(" => Some(");
        arms.append(func_name.as_str());
        arms.append("()),");
        builders.append(builder_src.as_str());
        proof {
            normalized = normalized.push(norm@);
            built = built.push(builder_src@);
            strips = strips.push(st_new);
            let ne = Seq::new((idx + 1) as nat, |i: int| "    "@ + path_expr(normalized[i]));
            let na = Seq::new(
                (idx + 1) as nat,
                |i: int| "        "@ + path_expr(normalized[i]) + " => Some("@ + builder_fn_name(i as nat) + "()),"@,
            );
            assert(ne.drop_last() =~= old_entries);
            assert(na.drop_last() =~= old_arms);
            assert(built.drop_last() =~= old_built);
            if idx == 0 {
                assert(entries@ =~= join(ne, ",\n"@));
                assert(arms@ =~= join(na, "\n"@));
                assert(builders@ =~= join(built, "\n"@));
            } else {
                assert(entries@ =~= join(ne, ",\n"@));
                assert(arms@ =~= join(na, "\n"@));
                assert(builders@ =~= join(built, "\n"@));
            }
            assert forall|i: int|
                0 <= i < idx + 1 implies rendered_flow_builder(
                    builder_fn_name(i as nat),
                    #[trigger] file_nodes(fl[i].file),
                    Ok(built[i]),
                ) by {
                if i < idx {
                    assert(built[i] == old_built[i]);
                    assert(normalized[i] == old_norm[i]);
                    assert(file_nodes(fl[i].file) == file_nodes(fl[i].file));
                    assert(rendered_flow_builder(builder_fn_name(i as nat), file_nodes(fl[i].file), Ok(old_built[i])));
                } else {
                    assert(built[i] == builder_src@);
                    assert(rendered_view == Ok::<Seq<char>, Seq<char>>(builder_src@));
                    assert(rendered_flow_builder(builder_fn_name(idx as nat), file_nodes(fl[idx as int].file), Ok(builder_src@)));
                }
            }
            assert forall|i: int|
                0 <= i < idx + 1 && plainly_below(manifest_dir@, fl[i].path@) implies #[trigger] normalized[i] == rooted(
                    unix_path(fl[i].path@.skip(manifest_dir@.len() as int + 1)),
                ) by {
                if i < idx {
                    assert(normalized[i] == old_norm[i]);
                } else {
                    assert(fl[i].path@ == path@);
                }
            }
            assert forall|i: int|
                0 <= i < idx + 1 && plain_path(manifest_dir@) && plain_path(fl[i].path@) implies #[trigger] normalized[i]
                    == plain_normal(manifest_dir@, fl[i].path@) by {
                if i < idx {
                    assert(normalized[i] == old_norm[i]);
                } else {
                    assert(fl[i].path@ == path@);
                }
            }
            assert forall|i: int| 0 <= i < idx + 1 implies normalized[i] == stripped_normal(#[trigger] strips[i], fl[i].path@) by {
                if i < idx {
                    assert(strips[i] == old_strips[i]);
                    assert(normalized[i] == old_norm[i]);
                } else {
                    assert(strips[i] == st_new);
                    assert(fl[i].path@ == path@);
                }
            }
        }
        idx = idx + 1;
    }
    let mut out = String::from_str(
        "// @generated by taskflow-build. Do not edit manually.\npub const GENERATED_FLOW_PATHS: &[&str] = &[\n",
    );
    out.append(entries.as_str());
    out.append("\n];\n\n");
    out.append("pub fn build_flow_by_path(path: &str) -> Option<(taskflow::tf::flow::Flow, taskflow::tf::flow::TaskId)> {\n    match path {\n");
    out.append(arms.as_str());
    out.append("\n        _ => None,\n    }\n}\n\npub async fn run_flow_by_path(path: &str) -> Result<std::sync::Arc<dyn std::any::Any + Send + Sync>, taskflow::tf::errors::FlowError> {\n    let (mut flow, sink_id) = build_flow_by_path(path).ok_or_else(|| taskflow::tf::errors::FlowError::ConfigBuildError(format!(\"no flow configured for path {path}\")))?;\n    flow.run_with_sink_id(sink_id).await\n}\n\n");
    out.append(builders.as_str());
    out.append("\n");
    proof {
        assert(out@ =~= module_source(normalized, built));
        assert(strips.len() == fl.len());
    }
    Ok(out)
}

} // verus!
