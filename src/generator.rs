//! The code generator: a flow becomes program text, one asynchronous function
//! per container and an entry point.
use vstd::prelude::*;
use crate::ir::{index_of, Connection, Failure, Flow, GenerationError, JsonValue, Node};
use crate::ir::{index_of_exec, lemma_index_of_from};
use crate::template_engine::{lookup, lookup_from, pairs_view, rendered, with_entry, Context, TemplateEngine};
use crate::text::{find_from, find_from_exec, owned, str_eq, trim, trim_exec};
use crate::topological_sort::{
    as_ints, edges_view, first_unresolved, kahn, kahn_order, lemma_kahn_valid, resolve_connections,
};
use crate::ir::node_ids;

verus! {

/// The value of the property `key`, from entry `i` on.
pub open spec fn prop_from(props: Seq<(String, JsonValue)>, key: Seq<char>, i: int) -> Option<JsonValue>
    decreases props.len() - i,
{
    if i < 0 || i >= props.len() {
        None
    } else if props[i].0@ == key {
        Some(props[i].1)
    } else {
        prop_from(props, key, i + 1)
    }
}

/// The value of the property `key`.
pub open spec fn prop(props: Seq<(String, JsonValue)>, key: Seq<char>) -> Option<JsonValue> {
    prop_from(props, key, 0)
}

pub open spec fn as_str(v: Option<JsonValue>) -> Option<Seq<char>> {
    match v {
        Some(JsonValue::Str(s)) => Some(s@),
        _ => None,
    }
}

/// A text that is present and not empty.
pub open spec fn non_empty(o: Option<Seq<char>>) -> Option<Seq<char>> {
    match o {
        Some(s) => if s.len() > 0 {
            Some(s)
        } else {
            None
        },
        None => None,
    }
}

pub open spec fn as_bool_or(v: Option<JsonValue>, d: bool) -> bool {
    match v {
        Some(JsonValue::Bool(b)) => b,
        _ => d,
    }
}

/// The elements of an array value; none for any other value.
pub open spec fn as_array(v: Option<JsonValue>) -> Seq<JsonValue> {
    match v {
        Some(JsonValue::Array(a, _)) => a@,
        _ => Seq::empty(),
    }
}

/// The text of member `key` of an object value.
pub open spec fn member_str(v: JsonValue, key: Seq<char>) -> Option<Seq<char>> {
    match v {
        JsonValue::Object(m, _) => as_str(prop(m@, key)),
        _ => None,
    }
}

pub open spec fn str_or(o: Option<Seq<char>>, d: Seq<char>) -> Seq<char> {
    match o {
        Some(s) => s,
        None => d,
    }
}

/// The elements of `v` with `sep` between each two.
pub open spec fn join(v: Seq<Seq<char>>, sep: Seq<char>) -> Seq<char>
    decreases v.len(),
{
    if v.len() == 0 {
        Seq::empty()
    } else if v.len() == 1 {
        v[0]
    } else {
        join(v.drop_last(), sep) + sep + v.last()
    }
}

/// A property value as template text: strings verbatim, every other value in
/// JSON notation.
pub open spec fn value_text(v: JsonValue) -> Seq<char> {
    match v {
        JsonValue::Str(s) => s@,
        JsonValue::Null => "null"@,
        JsonValue::Bool(b) => if b {
            "true"@
        } else {
            "false"@
        },
        JsonValue::Number(t) => t@,
        JsonValue::Array(_, t) => t@,
        JsonValue::Object(_, t) => t@,
    }
}

/// The template context made of the first `k` properties, in order.
pub open spec fn context_upto(props: Seq<(String, JsonValue)>, k: int) -> Seq<(Seq<char>, Seq<char>)>
    decreases k,
{
    if k <= 0 || k > props.len() {
        Seq::empty()
    } else {
        with_entry(context_upto(props, k - 1), props[k - 1].0@, value_text(props[k - 1].1))
    }
}

/// The template context of a node: its properties as text.
pub open spec fn context_of(props: Seq<(String, JsonValue)>) -> Seq<(Seq<char>, Seq<char>)> {
    context_upto(props, props.len() as int)
}

/// The variables that the call arguments from index `i` on are mapped to.
pub open spec fn call_args(args: Seq<JsonValue>, mapping: Seq<(Seq<char>, Seq<char>)>, i: int) -> Result<
    Seq<Seq<char>>,
    Failure,
>
    decreases args.len() - i,
{
    if i < 0 || i >= args.len() {
        Ok(Seq::empty())
    } else {
        let name = str_or(member_str(args[i], "name"@), Seq::empty());
        match lookup(mapping, name) {
            None => Err(Failure::UnmappedArgument(name)),
            Some(v) => match call_args(args, mapping, i + 1) {
                Ok(rest) => Ok(seq![v] + rest),
                Err(e) => Err(e),
            },
        }
    }
}

/// The variable mapping of the first connection into the node `id`, from
/// connection `k` on; empty where there is none.
pub open spec fn incoming_mapping(conns: Seq<Connection>, id: Seq<char>, k: int) -> Seq<(Seq<char>, Seq<char>)>
    decreases conns.len() - k,
{
    if k < 0 || k >= conns.len() {
        Seq::empty()
    } else if conns[k].to@ == id {
        match conns[k].variable_mapping {
            Some(m) => pairs_view(m@),
            None => Seq::empty(),
        }
    } else {
        incoming_mapping(conns, id, k + 1)
    }
}

/// The statement of a `call-function` node.
pub open spec fn call_code(props: Seq<(String, JsonValue)>, mapping: Seq<(Seq<char>, Seq<char>)>) -> Result<
    Seq<char>,
    Failure,
> {
    match as_str(prop(props, "target_function"@)) {
        None => Err(Failure::MissingProperty("target_function"@)),
        Some(f) => match call_args(as_array(prop(props, "arguments"@)), mapping, 0) {
            Err(e) => Err(e),
            Ok(vals) => {
                let call = f + "("@ + join(vals, ", "@) + ").await"@;
                match non_empty(as_str(prop(props, "return_variable"@))) {
                    Some(v) => if as_bool_or(prop(props, "declare_variable"@), true) {
                        let m = if as_bool_or(prop(props, "is_mutable"@), false) {
                            "mut "@
                        } else {
                            Seq::empty()
                        };
                        let t = match non_empty(as_str(prop(props, "return_type"@))) {
                            Some(t) => ": "@ + t,
                            None => Seq::empty(),
                        };
                        Ok("let "@ + m + v + t + " = "@ + call + ";"@)
                    } else {
                        Ok(v + " = "@ + call + ";"@)
                    },
                    None => Ok(call + ";"@),
                }
            },
        },
    }
}

/// The statements that a node contributes, before indentation.
pub open spec fn node_code(node: Node, mapping: Seq<(Seq<char>, Seq<char>)>) -> Result<Seq<char>, Failure> {
    let t = node.plugin_type@;
    if t == "call-function"@ {
        call_code(node.properties@, mapping)
    } else if t == "legacy-code"@ || t == "legacy_code"@ {
        Ok(rendered("{{code}}"@, context_of(node.properties@)))
    } else if t == "debug"@ {
        Ok(
            rendered(
                "{{#if label}}println!(\"{{label}}: {:?}\", {{variable}});\n{{else}}println!(\"{:?}\", {{variable}});\n{{/if}}"@,
                context_of(node.properties@),
            ),
        )
    } else {
        Err(Failure::UnknownPluginType(t))
    }
}

/// One line of a node's text, indented one level; nothing for a blank line.
pub open spec fn indent_line(l: Seq<char>) -> Seq<char> {
    if trim(l).len() == 0 {
        Seq::empty()
    } else {
        "    "@ + l + "\n"@
    }
}

/// A line without the `\r` of a `\r\n` ending.
pub open spec fn strip_cr(l: Seq<char>) -> Seq<char> {
    if l.len() > 0 && l.last() == '\r' {
        l.drop_last()
    } else {
        l
    }
}

/// Each non-blank line of `s` indented one level and ended by a line break.
pub open spec fn indented(s: Seq<char>) -> Seq<char>
    decreases s.len(),
{
    match find_from(s, "\n"@, 0) {
        Some(j) => if 0 <= j < s.len() {
            indent_line(strip_cr(s.subrange(0, j))) + indented(s.subrange(j + 1, s.len() as int))
        } else {
            Seq::empty()
        },
        None => if s.len() == 0 {
            Seq::empty()
        } else {
            indent_line(s)
        },
    }
}

/// Whether a node contributes no statements of its own.
pub open spec fn structural(node: Node) -> bool {
    node.plugin_type@ == "start-node"@ || node.plugin_type@ == "function-definition"@
}

/// The ids of the nodes at the positions `members`.
pub open spec fn member_ids(nodes: Seq<Node>, members: Seq<int>) -> Seq<Seq<char>> {
    members.map_values(|m: int| nodes[m].id@)
}

/// The first `k` connections whose endpoints are both among `ids`, as pairs of
/// positions in `ids`.
pub open spec fn scope_edges(ids: Seq<Seq<char>>, conns: Seq<Connection>, k: int) -> Seq<(int, int)>
    decreases k,
{
    if k <= 0 || k > conns.len() {
        Seq::empty()
    } else {
        let prev = scope_edges(ids, conns, k - 1);
        let f = index_of(ids, conns[k - 1].from@);
        let t = index_of(ids, conns[k - 1].to@);
        if f >= 0 && t >= 0 {
            prev.push((f, t))
        } else {
            prev
        }
    }
}

/// The text of the members in the sorted order `order`, from position `p` on.
pub open spec fn body_from(
    nodes: Seq<Node>,
    conns: Seq<Connection>,
    members: Seq<int>,
    order: Seq<int>,
    p: int,
) -> Result<Seq<char>, Failure>
    decreases order.len() - p,
{
    if p < 0 || p >= order.len() {
        Ok(Seq::empty())
    } else {
        let node = nodes[members[order[p]]];
        let rest = body_from(nodes, conns, members, order, p + 1);
        if structural(node) {
            rest
        } else {
            match node_code(node, incoming_mapping(conns, node.id@, 0)) {
                Err(e) => Err(e),
                Ok(code) => match rest {
                    Err(e) => Err(e),
                    Ok(r) => Ok(indented(code) + r),
                },
            }
        }
    }
}

/// The body of one scope: its members sorted by the connections among them,
/// each contributing its indented statements.
pub open spec fn scope_code(nodes: Seq<Node>, conns: Seq<Connection>, members: Seq<int>) -> Result<
    Seq<char>,
    Failure,
> {
    if members.len() == 0 {
        Ok(Seq::empty())
    } else {
        let ids = member_ids(nodes, members);
        let order = kahn(ids.len() as int, scope_edges(ids, conns, conns.len() as int), Seq::empty());
        if order.len() < ids.len() {
            Err(Failure::CycleDetected)
        } else {
            body_from(nodes, conns, members, order, 0)
        }
    }
}

/// The positions among the first `k` nodes of those whose parent is `parent`.
pub open spec fn children_upto(nodes: Seq<Node>, parent: Seq<char>, k: int) -> Seq<int>
    decreases k,
{
    if k <= 0 || k > nodes.len() {
        Seq::empty()
    } else {
        let prev = children_upto(nodes, parent, k - 1);
        match nodes[k - 1].parent_id {
            Some(p) => if p@ == parent {
                prev.push(k - 1)
            } else {
                prev
            },
            None => prev,
        }
    }
}

pub open spec fn is_function_definition(node: Node) -> bool {
    node.plugin_type@ == "function-definition"@
}

/// The positions among the first `k` nodes of the top-level nodes that are not
/// function definitions.
pub open spec fn roots_upto(nodes: Seq<Node>, k: int) -> Seq<int>
    decreases k,
{
    if k <= 0 || k > nodes.len() {
        Seq::empty()
    } else {
        let prev = roots_upto(nodes, k - 1);
        if nodes[k - 1].parent_id is None && !is_function_definition(nodes[k - 1]) {
            prev.push(k - 1)
        } else {
            prev
        }
    }
}

pub open spec fn function_name(node: Node) -> Option<Seq<char>> {
    as_str(prop(node.properties@, "function_name"@))
}

/// The parameter list of a function definition: `name: type` for each argument.
pub open spec fn signature_args(args: Seq<JsonValue>) -> Seq<Seq<char>> {
    args.map_values(
        |a: JsonValue| str_or(member_str(a, "name"@), "arg"@) + ": "@ + str_or(member_str(a, "type"@), "i32"@),
    )
}

/// The text of the function defined by the container at position `i`.
pub open spec fn function_code(nodes: Seq<Node>, conns: Seq<Connection>, i: int) -> Result<Seq<char>, Failure> {
    let node = nodes[i];
    let props = node.properties@;
    let args = signature_args(as_array(prop(props, "arguments"@)));
    let ret = match non_empty(as_str(prop(props, "return_type"@))) {
        Some(t) => " -> "@ + t,
        None => Seq::empty(),
    };
    match scope_code(nodes, conns, children_upto(nodes, node.id@, nodes.len() as int)) {
        Err(e) => Err(e),
        Ok(body) => Ok(
            "async fn "@ + str_or(function_name(node), "unknown"@) + "("@ + join(args, ", "@) + ")"@ + ret
                + " {\n"@ + body + "\n}\n\n"@,
        ),
    }
}

/// The functions of the containers from position `i` on, but `main`.
pub open spec fn functions_from(nodes: Seq<Node>, conns: Seq<Connection>, i: int) -> Result<Seq<char>, Failure>
    decreases nodes.len() - i,
{
    if i < 0 || i >= nodes.len() {
        Ok(Seq::empty())
    } else {
        let rest = functions_from(nodes, conns, i + 1);
        if is_function_definition(nodes[i]) && function_name(nodes[i]) != Some("main"@) {
            match function_code(nodes, conns, i) {
                Err(e) => Err(e),
                Ok(t) => match rest {
                    Err(e) => Err(e),
                    Ok(r) => Ok(t + r),
                },
            }
        } else {
            rest
        }
    }
}

/// The position of the first container named `main` from position `i` on, or -1.
pub open spec fn main_from(nodes: Seq<Node>, i: int) -> int
    decreases nodes.len() - i,
{
    if i < 0 || i >= nodes.len() {
        -1
    } else if is_function_definition(nodes[i]) && function_name(nodes[i]) == Some("main"@) {
        i
    } else {
        main_from(nodes, i + 1)
    }
}

/// The nodes of the entry point: the children of the container named `main`,
/// or else the top-level nodes that are not function definitions.
pub open spec fn entry_members(nodes: Seq<Node>) -> Seq<int> {
    let mi = main_from(nodes, 0);
    if mi >= 0 {
        children_upto(nodes, nodes[mi].id@, nodes.len() as int)
    } else {
        roots_upto(nodes, nodes.len() as int)
    }
}

/// The program of an empty flow.
pub open spec fn empty_program() -> Seq<char> {
    "#[tokio::main]\nasync fn main() {\n}\n"@
}

/// The program text of a flow, or the first failure met: a connection
/// endpoint that names no node fails before anything is generated.
pub open spec fn generated(flow: Flow) -> Result<Seq<char>, Failure> {
    let nodes = flow.nodes@;
    let conns = flow.connections@;
    if nodes.len() == 0 {
        Ok(empty_program())
    } else {
        match first_unresolved(node_ids(nodes), conns, 0) {
            Some(id) => Err(Failure::NodeNotFound(id)),
            None => match functions_from(nodes, conns, 0) {
                Err(e) => Err(e),
                Ok(defs) => match scope_code(nodes, conns, entry_members(nodes)) {
                    Err(e) => Err(e),
                    Ok(body) => Ok(defs + "#[tokio::main]\nasync fn main() {\n"@ + body + "}\n"@),
                },
            },
        }
    }
}

pub open spec fn text_of(o: Option<&String>) -> Option<Seq<char>> {
    match o {
        Some(s) => Some(s@),
        None => None,
    }
}

pub open spec fn mapping_of(o: Option<&Vec<(String, String)>>) -> Seq<(Seq<char>, Seq<char>)> {
    match o {
        Some(m) => pairs_view(m@),
        None => Seq::empty(),
    }
}

pub open spec fn texts(v: Seq<String>) -> Seq<Seq<char>> {
    v.map_values(|s: String| s@)
}

/// The value of the property `key`.
fn prop_exec<'a>(props: &'a Vec<(String, JsonValue)>, key: &str) -> (r: Option<&'a JsonValue>)
    ensures
        match r {
            Some(v) => prop(props@, key@) == Some(*v),
            None => prop(props@, key@) is None,
        },
{
    let n = props.len();
    let mut i: usize = 0;
    while i < n
        invariant
            n == props@.len(),
            i <= n,
            prop(props@, key@) == prop_from(props@, key@, i as int),
        decreases n - i,
    {
        if str_eq(props[i].0.as_str(), key) {
            return Some(&props[i].1);
        }
        i = i + 1;
    }
    None
}

/// The text of the property `key`, where it is a string.
fn str_prop<'a>(props: &'a Vec<(String, JsonValue)>, key: &str) -> (r: Option<&'a String>)
    ensures
        text_of(r) == as_str(prop(props@, key@)),
{
    match prop_exec(props, key) {
        Some(JsonValue::Str(s)) => Some(s),
        _ => None,
    }
}

/// The text of the property `key`, where it is a non-empty string.
fn non_empty_prop<'a>(props: &'a Vec<(String, JsonValue)>, key: &str) -> (r: Option<&'a String>)
    ensures
        text_of(r) == non_empty(as_str(prop(props@, key@))),
{
    match str_prop(props, key) {
        Some(s) => if s.as_str().unicode_len() > 0 {
            Some(s)
        } else {
            None
        },
        None => None,
    }
}

/// The property `key` where it is a boolean, else `d`.
fn bool_prop_or(props: &Vec<(String, JsonValue)>, key: &str, d: bool) -> (r: bool)
    ensures
        r == as_bool_or(prop(props@, key@), d),
{
    match prop_exec(props, key) {
        Some(JsonValue::Bool(b)) => *b,
        _ => d,
    }
}

/// The elements of the property `key`, where it is an array.
fn array_prop<'a>(props: &'a Vec<(String, JsonValue)>, key: &str) -> (r: Option<&'a Vec<JsonValue>>)
    ensures
        as_array(prop(props@, key@)) == match r {
            Some(a) => a@,
            None => Seq::empty(),
        },
{
    match prop_exec(props, key) {
        Some(JsonValue::Array(a, _)) => Some(a),
        _ => None,
    }
}

/// The text of member `key` of an object value.
fn member_str_exec<'a>(v: &'a JsonValue, key: &str) -> (r: Option<&'a String>)
    ensures
        text_of(r) == member_str(*v, key@),
{
    match v {
        JsonValue::Object(m, _) => str_prop(m, key),
        _ => None,
    }
}

/// The text of member `key` of an object value, else `d`.
fn member_str_or(v: &JsonValue, key: &str, d: &str) -> (r: String)
    ensures
        r@ == str_or(member_str(*v, key@), d@),
{
    match member_str_exec(v, key) {
        Some(s) => s.clone(),
        None => owned(d),
    }
}

/// The elements of `v` with `sep` between each two.
fn join_exec(v: &Vec<String>, sep: &str) -> (r: String)
    ensures
        r@ == join(texts(v@), sep@),
{
    let ghost w = texts(v@);
    let n = v.len();
    let mut out = String::new();
    let mut i: usize = 0;
    assert(w.subrange(0, 0) =~= Seq::<Seq<char>>::empty());
    while i < n
        invariant
            n == v@.len(),
            w == texts(v@),
            i <= n,
            out@ == join(w.subrange(0, i as int), sep@),
        decreases n - i,
    {
        if i == 0 {
            out = v[0].clone();
        } else {
            out.append(sep);
            out.append(v[i].as_str());
        }
        assert(w.subrange(0, i + 1).drop_last() =~= w.subrange(0, i as int));
        i = i + 1;
    }
    assert(w.subrange(0, n as int) =~= w);
    out
}

/// A property value as template text.
fn value_text_exec(v: &JsonValue) -> (r: String)
    ensures
        r@ == value_text(*v),
{
    match v {
        JsonValue::Str(s) => s.clone(),
        JsonValue::Null => owned("null"),
        JsonValue::Bool(b) => if *b {
            owned("true")
        } else {
            owned("false")
        },
        JsonValue::Number(t) => t.clone(),
        JsonValue::Array(_, t) => t.clone(),
        JsonValue::Object(_, t) => t.clone(),
    }
}

/// The template context of a node: its properties as text.
fn context_of_exec(props: &Vec<(String, JsonValue)>) -> (r: Context)
    ensures
        r@ == context_of(props@),
        r.wf(),
{
    let n = props.len();
    let mut ctx = Context::new();
    let mut i: usize = 0;
    while i < n
        invariant
            n == props@.len(),
            i <= n,
            ctx.wf(),
            ctx@ == context_upto(props@, i as int),
        decreases n - i,
    {
        let t = value_text_exec(&props[i].1);
        ctx.insert(props[i].0.clone(), t);
        i = i + 1;
    }
    ctx
}

/// The value stored under `k`.
fn lookup_exec<'a>(c: &'a Vec<(String, String)>, k: &str) -> (r: Option<&'a String>)
    ensures
        text_of(r) == lookup(pairs_view(c@), k@),
{
    let ghost cv = pairs_view(c@);
    let n = c.len();
    let mut i: usize = 0;
    while i < n
        invariant
            n == c@.len(),
            cv == pairs_view(c@),
            i <= n,
            lookup(cv, k@) == lookup_from(cv, k@, i as int),
        decreases n - i,
    {
        if str_eq(c[i].0.as_str(), k) {
            return Some(&c[i].1);
        }
        i = i + 1;
    }
    None
}

/// The variable mapping of the first connection into the node `id`.
fn incoming_mapping_exec<'a>(conns: &'a Vec<Connection>, id: &String) -> (r: Option<&'a Vec<(String, String)>>)
    ensures
        mapping_of(r) == incoming_mapping(conns@, id@, 0),
{
    let n = conns.len();
    let mut k: usize = 0;
    while k < n
        invariant
            n == conns@.len(),
            k <= n,
            incoming_mapping(conns@, id@, 0) == incoming_mapping(conns@, id@, k as int),
        decreases n - k,
    {
        if conns[k].to == *id {
            return match &conns[k].variable_mapping {
                Some(m) => Some(m),
                None => None,
            };
        }
        k = k + 1;
    }
    None
}

/// The variables that the call arguments are mapped to.
fn call_args_exec(args: &Vec<JsonValue>, mapping: Option<&Vec<(String, String)>>) -> (r: Result<
    Vec<String>,
    GenerationError,
>)
    ensures
        match r {
            Ok(v) => call_args(args@, mapping_of(mapping), 0) == Ok::<Seq<Seq<char>>, Failure>(texts(v@)),
            Err(e) => call_args(args@, mapping_of(mapping), 0) == Err::<Seq<Seq<char>>, Failure>(e@),
        },
{
    let ghost mv = mapping_of(mapping);
    let n = args.len();
    let mut vals: Vec<String> = Vec::new();
    let mut i: usize = 0;
    while i < n
        invariant
            n == args@.len(),
            mv == mapping_of(mapping),
            i <= n,
            call_args(args@, mv, 0) == match call_args(args@, mv, i as int) {
                Ok(rest) => Ok(texts(vals@) + rest),
                Err(e) => Err::<Seq<Seq<char>>, Failure>(e),
            },
        decreases n - i,
    {
        let name = member_str_or(&args[i], "name", "");
        proof {
            reveal_strlit("");
            assert(""@ =~= Seq::<char>::empty());
        }
        let found = match mapping {
            Some(m) => lookup_exec(m, name.as_str()),
            None => None,
        };
        match found {
            Some(v) => {
                let ghost before = texts(vals@);
                vals.push(v.clone());
                assert(texts(vals@) =~= before.push(v@));
                proof {
                    match call_args(args@, mv, i + 1) {
                        Ok(rest) => {
                            assert(texts(vals@) + rest =~= before + (seq![v@] + rest));
                        },
                        Err(e) => {},
                    }
                }
            },
            None => {
                return Err(GenerationError::UnmappedArgument(name));
            },
        }
        i = i + 1;
    }
    assert(texts(vals@) + Seq::<Seq<char>>::empty() =~= texts(vals@));
    Ok(vals)
}

/// The statement of a `call-function` node.
fn call_code_exec(props: &Vec<(String, JsonValue)>, mapping: Option<&Vec<(String, String)>>) -> (r: Result<
    String,
    GenerationError,
>)
    ensures
        match r {
            Ok(s) => call_code(props@, mapping_of(mapping)) == Ok::<Seq<char>, Failure>(s@),
            Err(e) => call_code(props@, mapping_of(mapping)) == Err::<Seq<char>, Failure>(e@),
        },
{
    let f = match str_prop(props, "target_function") {
        Some(f) => f,
        None => {
            return Err(GenerationError::MissingProperty(owned("target_function")));
        },
    };
    let vals = match array_prop(props, "arguments") {
        Some(a) => match call_args_exec(a, mapping) {
            Ok(v) => v,
            Err(e) => {
                return Err(e);
            },
        },
        None => {
            let empty: Vec<JsonValue> = Vec::new();
            match call_args_exec(&empty, mapping) {
                Ok(v) => v,
                Err(e) => {
                    return Err(e);
                },
            }
        },
    };
    let mut call = f.clone();
    call.append("(");
    call.append(join_exec(&vals, ", ").as_str());
    call.append(").await");
    let ghost gcall = call@;
    match non_empty_prop(props, "return_variable") {
        Some(v) => {
            if bool_prop_or(props, "declare_variable", true) {
                let mut out = owned("let ");
                let ghost m: Seq<char> = Seq::empty();
                if bool_prop_or(props, "is_mutable", false) {
                    out.append("mut ");
                    proof {
                        m = "mut "@;
                    }
                }
                out.append(v.as_str());
                let ghost t: Seq<char> = Seq::empty();
                match non_empty_prop(props, "return_type") {
                    Some(ty) => {
                        out.append(": ");
                        out.append(ty.as_str());
                        proof {
                            t = ": "@ + ty@;
                        }
                    },
                    None => {},
                }
                out.append(" = ");
                out.append(call.as_str());
                out.append(";");
                assert(out@ =~= "let "@ + m + v@ + t + " = "@ + gcall + ";"@);
                Ok(out)
            } else {
                let mut out = v.clone();
                out.append(" = ");
                out.append(call.as_str());
                out.append(";");
                assert(out@ =~= v@ + " = "@ + gcall + ";"@);
                Ok(out)
            }
        },
        None => {
            call.append(";");
            Ok(call)
        },
    }
}

/// The statements that a node contributes, before indentation. A node whose
/// plugin type is none of `call-function`, `legacy-code` (or `legacy_code`)
/// and `debug` fails with `UnknownPluginType`: an unknown type is taken for an
/// authoring mistake, never passed over.
pub fn generate_node_code(node: &Node, mapping: Option<&Vec<(String, String)>>) -> (r: Result<
    String,
    GenerationError,
>)
    ensures
        match r {
            Ok(s) => node_code(*node, mapping_of(mapping)) == Ok::<Seq<char>, Failure>(s@),
            Err(e) => node_code(*node, mapping_of(mapping)) == Err::<Seq<char>, Failure>(e@),
        },
{
    let t = node.plugin_type.as_str();
    if str_eq(t, "call-function") {
        call_code_exec(&node.properties, mapping)
    } else if str_eq(t, "legacy-code") || str_eq(t, "legacy_code") {
        let ctx = context_of_exec(&node.properties);
        Ok(TemplateEngine::render("{{code}}", &ctx))
    } else if str_eq(t, "debug") {
        let ctx = context_of_exec(&node.properties);
        Ok(
            TemplateEngine::render(
                "{{#if label}}println!(\"{{label}}: {:?}\", {{variable}});\n{{else}}println!(\"{:?}\", {{variable}});\n{{/if}}",
                &ctx,
            ),
        )
    } else {
        Err(GenerationError::UnknownPluginType(node.plugin_type.clone()))
    }
}

/// One line indented one level; nothing for a blank line.
fn indent_line_exec(l: &str) -> (r: String)
    ensures
        r@ == indent_line(l@),
{
    if trim_exec(l).unicode_len() == 0 {
        String::new()
    } else {
        let mut out = owned("    ");
        out.append(l);
        out.append("\n");
        out
    }
}

/// Each non-blank line of `s` indented one level and ended by a line break.
pub fn indent_exec(s: &str) -> (r: String)
    ensures
        r@ == indented(s@),
{
    let mut out = String::new();
    let mut rest = owned(s);
    loop
        invariant
            out@ + indented(rest@) == indented(s@),
        decreases rest@.len(),
    {
        let nl = "\n";
        proof {
            reveal_strlit("\n");
        }
        let n = rest.as_str().unicode_len();
        match find_from_exec(rest.as_str(), nl, 0) {
            Some(j) => {
                let line = rest.as_str().substring_char(0, j);
                let stripped = if j > 0 && line.get_char(j - 1) == '\r' {
                    assert(line@.subrange(0, j - 1) =~= line@.drop_last());
                    line.substring_char(0, j - 1)
                } else {
                    line
                };
                let piece = indent_line_exec(stripped);
                let ghost before = out@;
                out.append(piece.as_str());
                let next = owned(rest.as_str().substring_char(j + 1, n));
                assert(out@ + indented(next@) =~= before + indented(rest@));
                rest = next;
            },
            None => {
                if n > 0 {
                    let piece = indent_line_exec(rest.as_str());
                    out.append(piece.as_str());
                } else {
                    assert(out@ =~= out@ + indented(rest@));
                }
                return out;
            },
        }
    }
}

/// Whether a node contributes no statements of its own.
fn structural_exec(node: &Node) -> (r: bool)
    ensures
        r == structural(*node),
{
    str_eq(node.plugin_type.as_str(), "start-node") || str_eq(node.plugin_type.as_str(), "function-definition")
}

/// The body of one scope: the members at positions `members` sorted by the
/// connections among them, each contributing its indented statements.
pub fn generate_scope_code(nodes: &Vec<Node>, connections: &Vec<Connection>, members: &Vec<usize>) -> (r: Result<
    String,
    GenerationError,
>)
    requires
        forall|t: int| 0 <= t < members@.len() ==> #[trigger] members@[t] < nodes@.len(),
    ensures
        match r {
            Ok(s) => scope_code(nodes@, connections@, as_ints(members@)) == Ok::<Seq<char>, Failure>(s@),
            Err(e) => scope_code(nodes@, connections@, as_ints(members@)) == Err::<Seq<char>, Failure>(e@),
        },
{
    let ghost mv = as_ints(members@);
    let n = members.len();
    if n == 0 {
        return Ok(String::new());
    }
    let ghost mids = member_ids(nodes@, mv);
    let mut ids: Vec<String> = Vec::new();
    let mut i: usize = 0;
    while i < n
        invariant
            n == members@.len(),
            mv == as_ints(members@),
            mids == member_ids(nodes@, mv),
            forall|t: int| 0 <= t < members@.len() ==> #[trigger] members@[t] < nodes@.len(),
            i <= n,
            ids@.len() == i,
            forall|t: int| 0 <= t < i ==> (#[trigger] ids@[t])@ == mids[t],
        decreases n - i,
    {
        ids.push(nodes[members[i]].id.clone());
        i = i + 1;
    }
    assert(ids@.map_values(|t: String| t@) =~= mids);
    let m = connections.len();
    let mut edges: Vec<(usize, usize)> = Vec::new();
    let mut k: usize = 0;
    while k < m
        invariant
            n == members@.len(),
            n == ids@.len(),
            m == connections@.len(),
            ids@.map_values(|t: String| t@) == mids,
            mids.len() == n,
            k <= m,
            edges_view(edges@) == scope_edges(mids, connections@, k as int),
            forall|t: int| 0 <= t < edges@.len() ==> (#[trigger] edges@[t]).0 < n && edges@[t].1 < n,
        decreases m - k,
    {
        let c = &connections[k];
        proof {
            lemma_index_of_from(mids, c.from@, 0);
            lemma_index_of_from(mids, c.to@, 0);
        }
        match (index_of_exec(&ids, &c.from), index_of_exec(&ids, &c.to)) {
            (Some(f), Some(t)) => {
                let ghost before = edges@;
                edges.push((f, t));
                assert(edges_view(edges@) =~= edges_view(before).push((f as int, t as int)));
            },
            _ => {},
        }
        k = k + 1;
    }
    let order = kahn_order(n, &edges);
    if order.len() < n {
        return Err(GenerationError::CycleDetected);
    }
    let ghost ov = as_ints(order@);
    proof {
        assert(mids.len() == n);
        lemma_kahn_valid(n as int, edges_view(edges@), Seq::empty());
    }
    assert(scope_code(nodes@, connections@, mv) == body_from(nodes@, connections@, mv, ov, 0));
    let mut out = String::new();
    let mut p: usize = 0;
    let len = order.len();
    while p < len
        invariant
            len == order@.len(),
            n == members@.len(),
            mv == as_ints(members@),
            ov == as_ints(order@),
            forall|t: int| 0 <= t < members@.len() ==> #[trigger] members@[t] < nodes@.len(),
            forall|q: int| 0 <= q < ov.len() ==> 0 <= #[trigger] ov[q] < n,
            p <= len,
            scope_code(nodes@, connections@, mv) == body_from(nodes@, connections@, mv, ov, 0),
            body_from(nodes@, connections@, mv, ov, 0) == match body_from(nodes@, connections@, mv, ov, p as int) {
                Ok(r) => Ok(out@ + r),
                Err(e) => Err::<Seq<char>, Failure>(e),
            },
        decreases len - p,
    {
        assert(ov[p as int] == order@[p as int] as int);
        assert(mv[ov[p as int]] == members@[order@[p as int] as int] as int);
        let node = &nodes[members[order[p]]];
        if !structural_exec(node) {
            let mapping = incoming_mapping_exec(connections, &node.id);
            match generate_node_code(node, mapping) {
                Ok(code) => {
                    let piece = indent_exec(code.as_str());
                    let ghost before = out@;
                    out.append(piece.as_str());
                    proof {
                        match body_from(nodes@, connections@, mv, ov, p + 1) {
                            Ok(r) => {
                                assert(out@ + r =~= before + (piece@ + r));
                            },
                            Err(e) => {},
                        }
                    }
                },
                Err(e) => {
                    return Err(e);
                },
            }
        }
        p = p + 1;
    }
    assert(out@ + Seq::<char>::empty() =~= out@);
    Ok(out)
}

/// The positions of the nodes whose parent is `parent`, in order.
fn children_exec(nodes: &Vec<Node>, parent: &String) -> (r: Vec<usize>)
    ensures
        as_ints(r@) == children_upto(nodes@, parent@, nodes@.len() as int),
        forall|t: int| 0 <= t < r@.len() ==> #[trigger] r@[t] < nodes@.len(),
{
    let n = nodes.len();
    let mut out: Vec<usize> = Vec::new();
    let mut i: usize = 0;
    assert(as_ints(out@) =~= Seq::<int>::empty());
    while i < n
        invariant
            n == nodes@.len(),
            i <= n,
            as_ints(out@) == children_upto(nodes@, parent@, i as int),
            forall|t: int| 0 <= t < out@.len() ==> #[trigger] out@[t] < i,
        decreases n - i,
    {
        let ghost before = out@;
        match &nodes[i].parent_id {
            Some(p) => {
                if *p == *parent {
                    out.push(i);
                    assert(as_ints(out@) =~= as_ints(before).push(i as int));
                }
            },
            None => {},
        }
        i = i + 1;
    }
    out
}

/// The positions of the top-level nodes that are not function definitions.
fn roots_exec(nodes: &Vec<Node>) -> (r: Vec<usize>)
    ensures
        as_ints(r@) == roots_upto(nodes@, nodes@.len() as int),
        forall|t: int| 0 <= t < r@.len() ==> #[trigger] r@[t] < nodes@.len(),
{
    let n = nodes.len();
    let mut out: Vec<usize> = Vec::new();
    let mut i: usize = 0;
    assert(as_ints(out@) =~= Seq::<int>::empty());
    while i < n
        invariant
            n == nodes@.len(),
            i <= n,
            as_ints(out@) == roots_upto(nodes@, i as int),
            forall|t: int| 0 <= t < out@.len() ==> #[trigger] out@[t] < i,
        decreases n - i,
    {
        let ghost before = out@;
        if nodes[i].parent_id.is_none() && !str_eq(nodes[i].plugin_type.as_str(), "function-definition") {
            out.push(i);
            assert(as_ints(out@) =~= as_ints(before).push(i as int));
        }
        i = i + 1;
    }
    out
}

/// The parameter list of a function definition.
fn signature_args_exec(args: &Vec<JsonValue>) -> (r: Vec<String>)
    ensures
        texts(r@) == signature_args(args@),
{
    let n = args.len();
    let mut out: Vec<String> = Vec::new();
    let mut i: usize = 0;
    while i < n
        invariant
            n == args@.len(),
            i <= n,
            out@.len() == i,
            forall|t: int| 0 <= t < i ==> (#[trigger] out@[t])@ == signature_args(args@)[t],
        decreases n - i,
    {
        let mut a = member_str_or(&args[i], "name", "arg");
        a.append(": ");
        let ty = member_str_or(&args[i], "type", "i32");
        a.append(ty.as_str());
        out.push(a);
        i = i + 1;
    }
    assert(texts(out@) =~= signature_args(args@));
    out
}

/// The function defined by the container at position `i`.
fn function_code_exec(nodes: &Vec<Node>, connections: &Vec<Connection>, i: usize) -> (r: Result<
    String,
    GenerationError,
>)
    requires
        i < nodes@.len(),
    ensures
        match r {
            Ok(s) => function_code(nodes@, connections@, i as int) == Ok::<Seq<char>, Failure>(s@),
            Err(e) => function_code(nodes@, connections@, i as int) == Err::<Seq<char>, Failure>(e@),
        },
{
    let node = &nodes[i];
    let props = &node.properties;
    let args = match array_prop(props, "arguments") {
        Some(a) => signature_args_exec(a),
        None => {
            let empty: Vec<JsonValue> = Vec::new();
            signature_args_exec(&empty)
        },
    };
    let children = children_exec(nodes, &node.id);
    let body = match generate_scope_code(nodes, connections, &children) {
        Ok(b) => b,
        Err(e) => {
            return Err(e);
        },
    };
    let mut out = owned("async fn ");
    match str_prop(props, "function_name") {
        Some(f) => out.append(f.as_str()),
        None => out.append("unknown"),
    }
    out.append("(");
    out.append(join_exec(&args, ", ").as_str());
    out.append(")");
    let ghost ret: Seq<char> = Seq::empty();
    match non_empty_prop(props, "return_type") {
        Some(t) => {
            out.append(" -> ");
            out.append(t.as_str());
            proof {
                ret = " -> "@ + t@;
            }
        },
        None => {},
    }
    out.append(" {\n");
    out.append(body.as_str());
    out.append("\n}\n\n");
    assert(out@ =~= "async fn "@ + str_or(function_name(*node), "unknown"@) + "("@ + join(
        signature_args(as_array(prop(node.properties@, "arguments"@))),
        ", "@,
    ) + ")"@ + ret + " {\n"@ + body@ + "\n}\n\n"@);
    Ok(out)
}

/// Whether the node is a function definition named `main`, or one named otherwise.
fn definition_kind(node: &Node) -> (r: (bool, bool))
    ensures
        r.0 == (is_function_definition(*node) && function_name(*node) == Some("main"@)),
        r.1 == (is_function_definition(*node) && function_name(*node) != Some("main"@)),
{
    if !str_eq(node.plugin_type.as_str(), "function-definition") {
        return (false, false);
    }
    match str_prop(&node.properties, "function_name") {
        Some(f) => {
            let is_main = str_eq(f.as_str(), "main");
            (is_main, !is_main)
        },
        None => {
            proof {
                reveal_strlit("main");
            }
            (false, true)
        },
    }
}

/// The program text of a flow: a function per container but `main`, in order,
/// then the entry point.
pub fn generate_rust(flow: &Flow) -> (r: Result<String, GenerationError>)
    ensures
        match r {
            Ok(s) => generated(*flow) == Ok::<Seq<char>, Failure>(s@),
            Err(e) => generated(*flow) == Err::<Seq<char>, Failure>(e@),
        },
{
    let nodes = &flow.nodes;
    let connections = &flow.connections;
    let n = nodes.len();
    if n == 0 {
        return Ok(owned("#[tokio::main]\nasync fn main() {\n}\n"));
    }
    match resolve_connections(nodes, connections) {
        Ok(_) => {},
        Err(e) => {
            return Err(e);
        },
    }
    let mut code = String::new();
    let mut i: usize = 0;
    while i < n
        invariant
            n == nodes@.len(),
            nodes == &flow.nodes,
            connections == &flow.connections,
            first_unresolved(node_ids(nodes@), connections@, 0) is None,
            i <= n,
            functions_from(nodes@, connections@, 0) == match functions_from(nodes@, connections@, i as int) {
                Ok(r) => Ok(code@ + r),
                Err(e) => Err::<Seq<char>, Failure>(e),
            },
        decreases n - i,
    {
        let (_, other) = definition_kind(&nodes[i]);
        if other {
            match function_code_exec(nodes, connections, i) {
                Ok(t) => {
                    let ghost before = code@;
                    code.append(t.as_str());
                    proof {
                        match functions_from(nodes@, connections@, i + 1) {
                            Ok(r) => {
                                assert(code@ + r =~= before + (t@ + r));
                            },
                            Err(e) => {},
                        }
                    }
                },
                Err(e) => {
                    return Err(e);
                },
            }
        }
        i = i + 1;
    }
    assert(code@ + Seq::<char>::empty() =~= code@);
    let mut main_index: Option<usize> = None;
    let mut j: usize = 0;
    while j < n
        invariant
            n == nodes@.len(),
            nodes == &flow.nodes,
            connections == &flow.connections,
            first_unresolved(node_ids(nodes@), connections@, 0) is None,
            j <= n,
            main_index is None ==> main_from(nodes@, 0) == main_from(nodes@, j as int),
            main_index is Some ==> main_index.unwrap() < n && main_from(nodes@, 0) == main_index.unwrap() as int,
        decreases n - j,
    {
        if main_index.is_none() {
            let (is_main, _) = definition_kind(&nodes[j]);
            if is_main {
                main_index = Some(j);
            }
        }
        j = j + 1;
    }
    let members = match main_index {
        Some(mi) => children_exec(nodes, &nodes[mi].id),
        None => roots_exec(nodes),
    };
    let body = match generate_scope_code(nodes, connections, &members) {
        Ok(b) => b,
        Err(e) => {
            return Err(e);
        },
    };
    let ghost defs = code@;
    code.append("#[tokio::main]\nasync fn main() {\n");
    code.append(body.as_str());
    code.append("}\n");
    assert(code@ =~= defs + "#[tokio::main]\nasync fn main() {\n"@ + body@ + "}\n"@);
    Ok(code)
}

} // verus!
