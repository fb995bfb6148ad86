//! The graph model: a flow of nodes and the connections between them.
use vstd::prelude::*;

verus! {

/// A property value, as a JSON document holds it.
#[derive(Debug)]
pub enum JsonValue {
    Null,
    Bool(bool),
    /// A number in its decimal notation.
    Number(String),
    Str(String),
    /// The elements of an array, and the array in compact JSON notation.
    Array(Vec<JsonValue>, String),
    /// The members of an object, in order (a key is looked up by its first
    /// member), and the object in compact JSON notation.
    Object(Vec<(String, JsonValue)>, String),
}

/// How a connection behaves; it does not change the order of execution.
#[derive(Debug, Clone, Copy, PartialEq, Eq, Structural)]
pub enum ConnectionType {
    Simple,
    FunctionCall,
}

impl Default for ConnectionType {
    fn default() -> (r: ConnectionType)
        ensures
            r == ConnectionType::Simple,
    {
        ConnectionType::Simple
    }
}

/// A directed edge from the node `from` to the node `to`.
#[derive(Debug, Clone)]
pub struct Connection {
    pub from: String,
    pub to: String,
    pub connection_type: ConnectionType,
    /// Argument name to the caller's variable, for a connection into a call.
    pub variable_mapping: Option<Vec<(String, String)>>,
}

/// A vertex of the graph: an instance of a plugin type.
#[derive(Debug)]
pub struct Node {
    pub id: String,
    pub plugin_type: String,
    pub label: Option<String>,
    /// The plugin's properties, in order; a key is looked up by its first entry.
    pub properties: Vec<(String, JsonValue)>,
    /// The container this node belongs to, if any.
    pub parent_id: Option<String>,
}

/// A whole compilation unit.
#[derive(Debug)]
pub struct Flow {
    pub nodes: Vec<Node>,
    pub connections: Vec<Connection>,
}

/// The ids of the nodes, in order.
pub open spec fn node_ids(nodes: Seq<Node>) -> Seq<Seq<char>> {
    nodes.map_values(|n: Node| n.id@)
}

/// Whether no two nodes share an id.
pub open spec fn ids_unique(ids: Seq<Seq<char>>) -> bool {
    forall|i: int, j: int| 0 <= i < j < ids.len() ==> ids[i] != ids[j]
}

/// The first position of `x` in `s` at or after `i`, or -1.
pub open spec fn index_of_from(s: Seq<Seq<char>>, x: Seq<char>, i: int) -> int
    decreases s.len() - i,
{
    if i < 0 || i >= s.len() {
        -1
    } else if s[i] == x {
        i
    } else {
        index_of_from(s, x, i + 1)
    }
}

/// The first position of `x` in `s`, or -1.
pub open spec fn index_of(s: Seq<Seq<char>>, x: Seq<char>) -> int {
    index_of_from(s, x, 0)
}

pub proof fn lemma_index_of_from(s: Seq<Seq<char>>, x: Seq<char>, i: int)
    requires
        0 <= i,
    ensures
        index_of_from(s, x, i) == -1 || (i <= index_of_from(s, x, i) < s.len() && s[index_of_from(s, x, i)] == x),
        index_of_from(s, x, i) == -1 ==> forall|k: int| i <= k < s.len() ==> s[k] != x,
        forall|k: int| i <= k < s.len() && s[k] == x ==> index_of_from(s, x, i) != -1 && index_of_from(s, x, i) <= k,
    decreases s.len() - i,
{
    if i < s.len() && s[i] != x {
        lemma_index_of_from(s, x, i + 1);
    }
}

/// Where `x` stands in `s`.
pub fn index_of_exec(s: &Vec<String>, x: &String) -> (r: Option<usize>)
    ensures
        match r {
            Some(k) => index_of(s@.map_values(|t: String| t@), x@) == k as int,
            None => index_of(s@.map_values(|t: String| t@), x@) == -1,
        },
{
    let ghost v = s@.map_values(|t: String| t@);
    let n = s.len();
    let mut i: usize = 0;
    while i < n
        invariant
            n == s@.len(),
            v == s@.map_values(|t: String| t@),
            i <= n,
            index_of(v, x@) == index_of_from(v, x@, i as int),
        decreases n - i,
    {
        if s[i] == *x {
            return Some(i);
        }
        i = i + 1;
    }
    None
}

/// The failures of a generation, with the id or key concerned.
#[derive(Debug, Clone)]
pub enum GenerationError {
    NodeNotFound(String),
    CycleDetected,
    MissingProperty(String),
    UnmappedArgument(String),
    UnknownPluginType(String),
}

/// A `GenerationError` with its text as characters.
pub enum Failure {
    NodeNotFound(Seq<char>),
    CycleDetected,
    MissingProperty(Seq<char>),
    UnmappedArgument(Seq<char>),
    UnknownPluginType(Seq<char>),
}

impl View for GenerationError {
    type V = Failure;

    open spec fn view(&self) -> Failure {
        match self {
            GenerationError::NodeNotFound(s) => Failure::NodeNotFound(s@),
            GenerationError::CycleDetected => Failure::CycleDetected,
            GenerationError::MissingProperty(s) => Failure::MissingProperty(s@),
            GenerationError::UnmappedArgument(s) => Failure::UnmappedArgument(s@),
            GenerationError::UnknownPluginType(s) => Failure::UnknownPluginType(s@),
        }
    }
}

impl GenerationError {
    /// A message naming the failure and the id or key concerned.
    pub fn message(&self) -> (r: String)
        ensures
            r@ == match self {
                GenerationError::NodeNotFound(s) => "Node not found: "@ + s@,
                GenerationError::CycleDetected => "Cycle detected in flow graph"@,
                GenerationError::MissingProperty(s) => "Missing property: "@ + s@,
                GenerationError::UnmappedArgument(s) => "Argument not mapped: "@ + s@,
                GenerationError::UnknownPluginType(s) => "Unknown plugin type: "@ + s@,
            },
    {
        match self {
            GenerationError::NodeNotFound(s) => String::from_str("Node not found: ").concat(s.as_str()),
            GenerationError::CycleDetected => String::from_str("Cycle detected in flow graph"),
            GenerationError::MissingProperty(s) => String::from_str("Missing property: ").concat(s.as_str()),
            GenerationError::UnmappedArgument(s) => String::from_str("Argument not mapped: ").concat(s.as_str()),
            GenerationError::UnknownPluginType(s) => String::from_str("Unknown plugin type: ").concat(s.as_str()),
        }
    }
}

} // verus!
