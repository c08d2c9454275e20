use vstd::prelude::*;

verus! {

/// A syntax-tree node: the closed set of variants the parser can build and
/// the generator reads.
#[derive(Debug)]
pub enum Node {
    Root(RootNode),
    Def(DefNode),
    Int(IntNode),
    Call(CallNode),
    VarRef(VarRefNode),
}

/// The top-level container. Its body holds at most one definition under the
/// current grammar.
#[derive(Debug)]
pub struct RootNode {
    pub body: Vec<Node>,
}

/// A function definition: its name, its argument names in declaration order
/// (duplicates permitted), and a body of zero or one expression.
#[derive(Debug)]
pub struct DefNode {
    pub name: String,
    pub arg_names: Vec<String>,
    pub body: Vec<Node>,
}

/// An integer literal.
#[derive(Debug)]
pub struct IntNode {
    pub value: i32,
}

/// A call expression: the callee name and the argument expressions in order.
#[derive(Debug)]
pub struct CallNode {
    pub name: String,
    pub arg_expr: Vec<Node>,
}

/// A bare reference to a name.
#[derive(Debug)]
pub struct VarRefNode {
    pub name: String,
}

/// The mathematical content of a `Node`: the same tree over sequences and
/// unbounded integers.
pub enum NodeV {
    Root { body: Seq<NodeV> },
    Def { name: Seq<char>, arg_names: Seq<Seq<char>>, body: Seq<NodeV> },
    Int { value: int },
    Call { name: Seq<char>, args: Seq<NodeV> },
    VarRef { name: Seq<char> },
}

/// The views of a sequence of strings, in order.
pub open spec fn strings_view(ss: Seq<String>) -> Seq<Seq<char>> {
    ss.map_values(|s: String| s@)
}

/// The view of a node.
pub open spec fn node_view(n: Node) -> NodeV
    decreases n,
{
    match n {
        Node::Root(r) => NodeV::Root { body: nodes_view(r.body@) },
        Node::Def(d) => NodeV::Def {
            name: d.name@,
            arg_names: strings_view(d.arg_names@),
            body: nodes_view(d.body@),
        },
        Node::Int(i) => NodeV::Int { value: i.value as int },
        Node::Call(c) => NodeV::Call { name: c.name@, args: nodes_view(c.arg_expr@) },
        Node::VarRef(v) => NodeV::VarRef { name: v.name@ },
    }
}

/// The views of a sequence of nodes, in order.
pub open spec fn nodes_view(ns: Seq<Node>) -> Seq<NodeV>
    decreases ns,
{
    if ns.len() == 0 {
        Seq::empty()
    } else {
        nodes_view(ns.drop_last()).push(node_view(ns.last()))
    }
}

impl View for Node {
    type V = NodeV;

    open spec fn view(&self) -> NodeV {
        node_view(*self)
    }
}

/// A name without parentheses. Parsed names satisfy this: identifier tokens
/// hold letters only.
pub open spec fn paren_free_name(name: Seq<char>) -> bool {
    forall|i: int| 0 <= i < name.len() ==> #[trigger] name[i] != '(' && name[i] != ')'
}

/// An expression node: an integer literal, a variable reference, or a call
/// whose arguments are expressions — what the grammar's `expr` rule builds.
pub open spec fn is_expr(n: NodeV) -> bool
    decreases n,
{
    match n {
        NodeV::Int { .. } => true,
        NodeV::VarRef { .. } => true,
        NodeV::Call { name, args } => forall|i: int|
            0 <= i < args.len() ==> is_expr(#[trigger] args[i]),
        _ => false,
    }
}

/// No name inside the expression holds a parenthesis.
pub open spec fn names_paren_free(n: NodeV) -> bool
    decreases n,
{
    match n {
        NodeV::Int { .. } => true,
        NodeV::VarRef { name } => paren_free_name(name),
        NodeV::Call { name, args } => paren_free_name(name) && (forall|i: int|
            0 <= i < args.len() ==> names_paren_free(#[trigger] args[i])),
        _ => true,
    }
}

/// Every node of the list is an expression whose names hold no parentheses.
pub open spec fn exprs_ok(ns: Seq<NodeV>) -> bool {
    forall|i: int|
        0 <= i < ns.len() ==> is_expr(#[trigger] ns[i]) && names_paren_free(ns[i])
}

/// The call nesting depth of an expression: how deep calls stand inside
/// calls.
pub open spec fn expr_depth(n: NodeV) -> int
    decreases n,
{
    match n {
        NodeV::Call { args, .. } => 1 + exprs_depth(args),
        _ => 0,
    }
}

/// The maximal call nesting depth over a list of expressions.
pub open spec fn exprs_depth(ns: Seq<NodeV>) -> int
    decreases ns,
{
    if ns.len() == 0 {
        0
    } else {
        vstd::math::max(exprs_depth(ns.drop_last()), expr_depth(ns.last()))
    }
}

pub proof fn lemma_nodes_view(ns: Seq<Node>)
    ensures
        nodes_view(ns).len() == ns.len(),
        forall|i: int| 0 <= i < ns.len() ==> nodes_view(ns)[i] == node_view(#[trigger] ns[i]),
    decreases ns.len(),
{
    if ns.len() > 0 {
        lemma_nodes_view(ns.drop_last());
        assert forall|i: int| 0 <= i < ns.len() implies nodes_view(ns)[i] == node_view(
            #[trigger] ns[i],
        ) by {
            if i < ns.len() - 1 {
                assert(ns.drop_last()[i] == ns[i]);
            }
        }
    }
}

pub proof fn lemma_nodes_view_push(ns: Seq<Node>, n: Node)
    ensures
        nodes_view(ns.push(n)) == nodes_view(ns).push(node_view(n)),
{
    assert(ns.push(n).drop_last() =~= ns);
    assert(ns.push(n).last() == n);
}

} // verus!
