use vstd::prelude::*;

use crate::node::{
    expr_depth, exprs_depth, is_expr, lemma_nodes_view, names_paren_free, node_view, nodes_view,
    paren_free_name, strings_view, CallNode, DefNode, IntNode, Node, NodeV, RootNode, VarRefNode,
};
use vstd::string::StringExecFns;

verus! {

/// The items joined with `sep` between consecutive items.
pub open spec fn spec_join(items: Seq<Seq<char>>, sep: Seq<char>) -> Seq<char>
    decreases items.len(),
{
    if items.len() == 0 {
        Seq::empty()
    } else if items.len() == 1 {
        items[0]
    } else {
        spec_join(items.drop_last(), sep) + sep + items.last()
    }
}

/// The generated text of each node, in order.
pub open spec fn gen_each(ns: Seq<NodeV>) -> Seq<Seq<char>>
    decreases ns,
{
    if ns.len() == 0 {
        Seq::empty()
    } else {
        gen_each(ns.drop_last()).push(spec_gen(ns.last()))
    }
}

/// The decimal character of a digit value.
pub open spec fn digit_char(d: nat) -> char {
    if d == 0 {
        '0'
    } else if d == 1 {
        '1'
    } else if d == 2 {
        '2'
    } else if d == 3 {
        '3'
    } else if d == 4 {
        '4'
    } else if d == 5 {
        '5'
    } else if d == 6 {
        '6'
    } else if d == 7 {
        '7'
    } else if d == 8 {
        '8'
    } else {
        '9'
    }
}

/// The decimal digits of a non-negative value, most significant first.
pub open spec fn dec_digits(n: nat) -> Seq<char>
    decreases n,
{
    if n < 10 {
        seq![digit_char(n)]
    } else {
        dec_digits(n / 10).push(digit_char(n % 10))
    }
}

/// The decimal text of an integer, with a leading `-` when it is negative.
pub open spec fn spec_int_text(v: int) -> Seq<char> {
    if v < 0 {
        seq!['-'] + dec_digits((-v) as nat)
    } else {
        dec_digits(v as nat)
    }
}

/// A definition's brace block built from its generated statements: the last
/// statement is rewritten as a return statement, statements are joined with
/// `;`, and an empty body yields an empty block.
pub open spec fn spec_def_body(stmts: Seq<Seq<char>>) -> Seq<char> {
    if stmts.len() == 0 {
        "{ }"@
    } else {
        "{ "@ + spec_join(
            stmts.update(stmts.len() - 1, "return "@ + stmts.last()),
            ";"@,
        ) + " }"@
    }
}

/// The generated target-language text of a node.
pub open spec fn spec_gen(n: NodeV) -> Seq<char>
    decreases n,
{
    match n {
        NodeV::Root { body } => spec_join(gen_each(body), "\n"@),
        NodeV::Def { name, arg_names, body } => "function "@ + name + "("@ + spec_join(
            arg_names,
            ", "@,
        ) + ") "@ + spec_def_body(gen_each(body)),
        NodeV::Int { value } => spec_int_text(value),
        NodeV::Call { name, args } => name + "("@ + spec_join(gen_each(args), ", "@) + ")"@,
        NodeV::VarRef { name } => name,
    }
}

pub proof fn lemma_gen_each(ns: Seq<NodeV>)
    ensures
        gen_each(ns).len() == ns.len(),
        forall|i: int| 0 <= i < ns.len() ==> gen_each(ns)[i] == spec_gen(#[trigger] ns[i]),
    decreases ns.len(),
{
    if ns.len() > 0 {
        lemma_gen_each(ns.drop_last());
        assert forall|i: int| 0 <= i < ns.len() implies gen_each(ns)[i] == spec_gen(
            #[trigger] ns[i],
        ) by {
            if i < ns.len() - 1 {
                assert(ns.drop_last()[i] == ns[i]);
            }
        }
    }
}

/// Joining one more item extends the join by the separator and the item.
pub proof fn lemma_join_take_step(items: Seq<Seq<char>>, sep: Seq<char>, i: int)
    requires
        0 <= i < items.len(),
    ensures
        spec_join(items.take(i + 1), sep) == if i == 0 {
            items[0]
        } else {
            spec_join(items.take(i), sep) + sep + items[i]
        },
{
    let t = items.take(i + 1);
    assert(t.len() == i + 1);
    if i == 0 {
        assert(t[0] == items[0]);
    } else {
        assert(t.drop_last() =~= items.take(i));
        assert(t.last() == items[i]);
    }
}

/// The start offset of item `i` inside a join whose separator has length
/// `sep_len`.
pub open spec fn join_offset(items: Seq<Seq<char>>, sep_len: nat, i: int) -> nat
    decreases i,
{
    if i <= 0 {
        0
    } else {
        (join_offset(items, sep_len, i - 1) + items[i - 1].len() + sep_len) as nat
    }
}

proof fn lemma_join_offset_agree(
    items1: Seq<Seq<char>>,
    items2: Seq<Seq<char>>,
    sep_len: nat,
    i: int,
)
    requires
        0 <= i,
        forall|j: int| 0 <= j < i ==> items1[j] == items2[j],
    ensures
        join_offset(items1, sep_len, i) == join_offset(items2, sep_len, i),
    decreases i,
{
    if i > 0 {
        lemma_join_offset_agree(items1, items2, sep_len, i - 1);
    }
}

/// A generated list of N items holds exactly those N items, in order: item
/// `i` stands verbatim at its offset, and between consecutive items stands
/// the separator and nothing else. Applied to a definition's parameter list,
/// whose text is `spec_join(arg_names, ", ")`: the generated parameter list
/// contains exactly the N argument names, comma-space-separated, in
/// declaration order.
pub proof fn lemma_join_parts(items: Seq<Seq<char>>, sep: Seq<char>)
    ensures
        items.len() == 0 ==> spec_join(items, sep).len() == 0,
        items.len() > 0 ==> spec_join(items, sep).len() + sep.len() == join_offset(
            items,
            sep.len(),
            items.len() as int,
        ),
        forall|i: int|
            0 <= i < items.len() ==> #[trigger] join_offset(items, sep.len(), i) + items[i].len()
                <= spec_join(items, sep).len(),
        forall|i: int|
            0 <= i < items.len() ==> spec_join(items, sep).subrange(
                #[trigger] join_offset(items, sep.len(), i) as int,
                (join_offset(items, sep.len(), i) + items[i].len()) as int,
            ) == items[i],
        forall|i: int|
            0 <= i < items.len() - 1 ==> spec_join(items, sep).subrange(
                (#[trigger] join_offset(items, sep.len(), i) + items[i].len()) as int,
                join_offset(items, sep.len(), i + 1) as int,
            ) == sep,
    decreases items.len(),
{
    let sl = sep.len();
    let j = spec_join(items, sep);
    if items.len() == 0 {
    } else if items.len() == 1 {
        assert(join_offset(items, sl, 0) == 0);
        assert(join_offset(items, sl, 1) == items[0].len() + sl);
        assert(j == items[0]);
        assert(j.subrange(0, items[0].len() as int) =~= items[0]);
    } else {
        let prev = items.drop_last();
        let last = items.last();
        let jp = spec_join(prev, sep);
        lemma_join_parts(prev, sep);
        assert(j == jp + sep + last);
        assert forall|i: int| 0 <= i <= prev.len() implies #[trigger] join_offset(items, sl, i)
            == join_offset(prev, sl, i) by {
            lemma_join_offset_agree(items, prev, sl, i);
        }
        let n = items.len() as int;
        assert(jp.len() + sl == join_offset(prev, sl, n - 1));
        assert(join_offset(items, sl, n) == join_offset(items, sl, n - 1) + last.len() + sl);
        assert(j.len() + sl == join_offset(items, sl, n));
        assert forall|i: int|
            0 <= i < items.len() implies #[trigger] join_offset(items, sl, i) + items[i].len()
            <= j.len() by {
            if i < n - 1 {
                assert(prev[i] == items[i]);
            }
        }
        assert forall|i: int|
            0 <= i < items.len() implies j.subrange(
            #[trigger] join_offset(items, sl, i) as int,
            (join_offset(items, sl, i) + items[i].len()) as int,
        ) == items[i] by {
            let a = join_offset(items, sl, i) as int;
            let b = a + items[i].len();
            if i < n - 1 {
                assert(prev[i] == items[i]);
                assert(b <= jp.len());
                assert(j.subrange(a, b) =~= jp.subrange(a, b));
            } else {
                assert(a == jp.len() + sl);
                assert(j.subrange(a, b) =~= last);
            }
        }
        assert forall|i: int|
            0 <= i < items.len() - 1 implies j.subrange(
            (#[trigger] join_offset(items, sl, i) + items[i].len()) as int,
            join_offset(items, sl, i + 1) as int,
        ) == sep by {
            let a = join_offset(items, sl, i) + items[i].len();
            let b = join_offset(items, sl, i + 1) as int;
            assert(b == a + sl);
            if i < n - 2 {
                assert(prev[i] == items[i]);
                assert(b <= jp.len());
                assert(j.subrange(a as int, b) =~= jp.subrange(a as int, b));
            } else {
                assert(prev[i] == items[i]);
                assert(a == jp.len());
                assert(j.subrange(a as int, b) =~= sep);
            }
        }
    }
}

/// The one-character text of a digit value.
fn digit_str(d: u64) -> (r: &'static str)
    requires
        d <= 9,
    ensures
        r@ == seq![digit_char(d as nat)],
{
    if d == 0 {
        proof {
            reveal_strlit("0");
            assert("0"@ =~= seq!['0']);
        }
        "0"
    } else if d == 1 {
        proof {
            reveal_strlit("1");
            assert("1"@ =~= seq!['1']);
        }
        "1"
    } else if d == 2 {
        proof {
            reveal_strlit("2");
            assert("2"@ =~= seq!['2']);
        }
        "2"
    } else if d == 3 {
        proof {
            reveal_strlit("3");
            assert("3"@ =~= seq!['3']);
        }
        "3"
    } else if d == 4 {
        proof {
            reveal_strlit("4");
            assert("4"@ =~= seq!['4']);
        }
        "4"
    } else if d == 5 {
        proof {
            reveal_strlit("5");
            assert("5"@ =~= seq!['5']);
        }
        "5"
    } else if d == 6 {
        proof {
            reveal_strlit("6");
            assert("6"@ =~= seq!['6']);
        }
        "6"
    } else if d == 7 {
        proof {
            reveal_strlit("7");
            assert("7"@ =~= seq!['7']);
        }
        "7"
    } else if d == 8 {
        proof {
            reveal_strlit("8");
            assert("8"@ =~= seq!['8']);
        }
        "8"
    } else {
        proof {
            reveal_strlit("9");
            assert("9"@ =~= seq!['9']);
        }
        "9"
    }
}

/// Appends the decimal digits of `m` to `out`.
fn push_dec_digits(out: &mut String, m: u64)
    ensures
        final (out)@ == old(out)@ + dec_digits(m as nat),
    decreases m,
{
    if m < 10 {
        out.append(digit_str(m));
        proof {
            assert(old(out)@ + seq![digit_char(m as nat)] =~= old(out)@ + dec_digits(m as nat));
        }
    } else {
        push_dec_digits(out, m / 10);
        out.append(digit_str(m % 10));
        proof {
            assert((old(out)@ + dec_digits((m / 10) as nat)) + seq![digit_char((m % 10) as nat)]
                =~= old(out)@ + dec_digits(m as nat));
        }
    }
}

fn generate_int(int_node: &IntNode) -> (r: String)
    ensures
        r@ == spec_int_text(int_node.value as int),
{
    let v = int_node.value;
    let mut out = String::new();
    let m: u64;
    if v < 0 {
        out.append("-");
        proof {
            reveal_strlit("-");
        }
        m = (-(v as i64)) as u64;
        proof {
            assert(out@ =~= seq!['-']);
        }
    } else {
        m = v as u64;
        proof {
            assert(out@ =~= Seq::<char>::empty());
        }
    }
    push_dec_digits(&mut out, m);
    proof {
        if v < 0 {
            assert(out@ =~= spec_int_text(int_node.value as int));
        } else {
            assert(out@ =~= spec_int_text(int_node.value as int));
        }
    }
    out
}

fn generate_var_ref(var_ref_node: &VarRefNode) -> (r: String)
    ensures
        r@ == var_ref_node.name@,
{
    var_ref_node.name.clone()
}

fn generate_root(root_node: &RootNode) -> (r: String)
    ensures
        r@ == spec_join(gen_each(nodes_view(root_node.body@)), "\n"@),
    decreases *root_node,
{
    let ghost views = nodes_view(root_node.body@);
    let ghost items = gen_each(views);
    proof {
        lemma_nodes_view(root_node.body@);
        lemma_gen_each(views);
    }
    let mut out = String::new();
    let mut i: usize = 0;
    while i < root_node.body.len()
        invariant
            i <= root_node.body@.len(),
            views == nodes_view(root_node.body@),
            items == gen_each(views),
            views.len() == root_node.body@.len(),
            items.len() == root_node.body@.len(),
            forall|j: int| 0 <= j < views.len() ==> views[j] == node_view(#[trigger] root_node.body@[j]),
            forall|j: int| 0 <= j < items.len() ==> items[j] == spec_gen(#[trigger] views[j]),
            out@ == spec_join(items.take(i as int), "\n"@),
        decreases root_node.body@.len() - i,
    {
        if i > 0 {
            out.append("\n");
        }
        let piece = generate(&root_node.body[i]);
        out.append(piece.as_str());
        proof {
            lemma_join_take_step(items, "\n"@, i as int);
        }
        i = i + 1;
    }
    proof {
        assert(items.take(items.len() as int) =~= items);
    }
    out
}

fn generate_def(def_node: &DefNode) -> (r: String)
    ensures
        r@ == spec_gen(
            NodeV::Def {
                name: def_node.name@,
                arg_names: strings_view(def_node.arg_names@),
                body: nodes_view(def_node.body@),
            },
        ),
    decreases *def_node,
{
    let ghost argvs = strings_view(def_node.arg_names@);
    let mut out = String::new();
    out.append("function ");
    out.append(def_node.name.as_str());
    out.append("(");
    let ghost head = "function "@ + def_node.name@ + "("@;
    proof {
        assert(out@ =~= head);
    }
    let mut i: usize = 0;
    while i < def_node.arg_names.len()
        invariant
            i <= def_node.arg_names@.len(),
            argvs == strings_view(def_node.arg_names@),
            argvs.len() == def_node.arg_names@.len(),
            head == "function "@ + def_node.name@ + "("@,
            out@ == head + spec_join(argvs.take(i as int), ", "@),
        decreases def_node.arg_names@.len() - i,
    {
        if i > 0 {
            out.append(", ");
        }
        out.append(def_node.arg_names[i].as_str());
        proof {
            assert(argvs[i as int] == def_node.arg_names@[i as int]@);
            lemma_join_take_step(argvs, ", "@, i as int);
            if i > 0 {
                assert((head + spec_join(argvs.take(i as int), ", "@)) + ", "@ + argvs[i as int]
                    =~= head + spec_join(argvs.take(i + 1), ", "@));
            } else {
                assert(head + spec_join(argvs.take(0), ", "@) =~= head);
                assert(head + argvs[0] =~= head + spec_join(argvs.take(1), ", "@));
            }
        }
        i = i + 1;
    }
    proof {
        assert(argvs.take(argvs.len() as int) =~= argvs);
    }
    out.append(") ");
    let ghost mid = head + spec_join(argvs, ", "@) + ") "@;
    proof {
        assert(out@ =~= mid);
    }
    let ghost bodyvs = nodes_view(def_node.body@);
    let ghost stmts = gen_each(bodyvs);
    proof {
        lemma_nodes_view(def_node.body@);
        lemma_gen_each(bodyvs);
    }
    if def_node.body.len() == 0 {
        out.append("{ }");
        proof {
            assert(out@ =~= mid + spec_def_body(stmts));
            assert(mid + spec_def_body(stmts) =~= spec_gen(
                NodeV::Def {
                    name: def_node.name@,
                    arg_names: strings_view(def_node.arg_names@),
                    body: nodes_view(def_node.body@),
                },
            ));
        }
    } else {
        let ghost promoted = stmts.update(stmts.len() - 1, "return "@ + stmts.last());
        out.append("{ ");
        let mut i: usize = 0;
        while i < def_node.body.len()
            invariant
                i <= def_node.body@.len(),
                bodyvs == nodes_view(def_node.body@),
                stmts == gen_each(bodyvs),
                bodyvs.len() == def_node.body@.len(),
                stmts.len() == def_node.body@.len(),
                def_node.body@.len() > 0,
                promoted == stmts.update(stmts.len() - 1, "return "@ + stmts.last()),
                forall|j: int| 0 <= j < bodyvs.len() ==> bodyvs[j] == node_view(
                    #[trigger] def_node.body@[j],
                ),
                forall|j: int| 0 <= j < stmts.len() ==> stmts[j] == spec_gen(#[trigger] bodyvs[j]),
                mid == "function "@ + def_node.name@ + "("@ + spec_join(
                    strings_view(def_node.arg_names@),
                    ", "@,
                ) + ") "@,
                out@ == mid + "{ "@ + spec_join(promoted.take(i as int), ";"@),
            decreases def_node.body@.len() - i,
        {
            if i > 0 {
                out.append(";");
            }
            if i == def_node.body.len() - 1 {
                out.append("return ");
            }
            let piece = generate(&def_node.body[i]);
            out.append(piece.as_str());
            proof {
                assert(promoted[i as int] == if i == def_node.body@.len() - 1 {
                    "return "@ + stmts[i as int]
                } else {
                    stmts[i as int]
                });
                lemma_join_take_step(promoted, ";"@, i as int);
                if i == 0 {
                    assert((mid + "{ "@ + spec_join(promoted.take(0), ";"@)) =~= mid + "{ "@);
                }
                assert(out@ =~= mid + "{ "@ + spec_join(promoted.take(i + 1), ";"@));
            }
            i = i + 1;
        }
        out.append(" }");
        proof {
            assert(promoted.take(promoted.len() as int) =~= promoted);
            assert(out@ =~= mid + ("{ "@ + spec_join(promoted, ";"@) + " }"@));
            assert(mid + spec_def_body(stmts) =~= out@);
            assert(mid + spec_def_body(stmts) =~= spec_gen(
                NodeV::Def {
                    name: def_node.name@,
                    arg_names: strings_view(def_node.arg_names@),
                    body: nodes_view(def_node.body@),
                },
            ));
        }
    }
    out
}

fn generate_call(call_node: &CallNode) -> (r: String)
    ensures
        r@ == spec_gen(
            NodeV::Call { name: call_node.name@, args: nodes_view(call_node.arg_expr@) },
        ),
    decreases *call_node,
{
    let ghost argvs = nodes_view(call_node.arg_expr@);
    let ghost items = gen_each(argvs);
    proof {
        lemma_nodes_view(call_node.arg_expr@);
        lemma_gen_each(argvs);
    }
    let mut out = String::new();
    out.append(call_node.name.as_str());
    out.append("(");
    let ghost head = call_node.name@ + "("@;
    proof {
        assert(out@ =~= head);
    }
    let mut i: usize = 0;
    while i < call_node.arg_expr.len()
        invariant
            i <= call_node.arg_expr@.len(),
            argvs == nodes_view(call_node.arg_expr@),
            items == gen_each(argvs),
            argvs.len() == call_node.arg_expr@.len(),
            items.len() == call_node.arg_expr@.len(),
            forall|j: int| 0 <= j < argvs.len() ==> argvs[j] == node_view(
                #[trigger] call_node.arg_expr@[j],
            ),
            forall|j: int| 0 <= j < items.len() ==> items[j] == spec_gen(#[trigger] argvs[j]),
            head == call_node.name@ + "("@,
            out@ == head + spec_join(items.take(i as int), ", "@),
        decreases call_node.arg_expr@.len() - i,
    {
        if i > 0 {
            out.append(", ");
        }
        let piece = generate(&call_node.arg_expr[i]);
        out.append(piece.as_str());
        proof {
            lemma_join_take_step(items, ", "@, i as int);
            assert(out@ =~= head + spec_join(items.take(i + 1), ", "@));
        }
        i = i + 1;
    }
    out.append(")");
    proof {
        assert(items.take(items.len() as int) =~= items);
        assert(out@ =~= spec_gen(
            NodeV::Call { name: call_node.name@, args: nodes_view(call_node.arg_expr@) },
        ));
    }
    out
}

/// The parenthesis contribution of one character.
pub open spec fn paren_delta(c: char) -> int {
    if c == '(' {
        1
    } else if c == ')' {
        -1
    } else {
        0
    }
}

/// The count of `(` minus the count of `)` in a text.
pub open spec fn paren_excess(s: Seq<char>) -> int
    decreases s.len(),
{
    if s.len() == 0 {
        0
    } else {
        paren_excess(s.drop_last()) + paren_delta(s.last())
    }
}

/// The maximal parenthesis nesting depth over all prefixes of a text.
pub open spec fn paren_depth(s: Seq<char>) -> int
    decreases s.len(),
{
    if s.len() == 0 {
        0
    } else {
        vstd::math::max(paren_depth(s.drop_last()), paren_excess(s))
    }
}

proof fn lemma_paren_depth_nonneg(s: Seq<char>)
    ensures
        paren_depth(s) >= 0,
        paren_depth(s) >= paren_excess(s),
    decreases s.len(),
{
    if s.len() > 0 {
        lemma_paren_depth_nonneg(s.drop_last());
    }
}

proof fn lemma_paren_concat(a: Seq<char>, b: Seq<char>)
    ensures
        paren_excess(a + b) == paren_excess(a) + paren_excess(b),
        paren_depth(a + b) == vstd::math::max(paren_depth(a), paren_excess(a) + paren_depth(b)),
    decreases b.len(),
{
    if b.len() == 0 {
        assert(a + b =~= a);
        lemma_paren_depth_nonneg(a);
    } else {
        lemma_paren_concat(a, b.drop_last());
        assert((a + b).drop_last() =~= a + b.drop_last());
        assert((a + b).last() == b.last());
    }
}

/// A text without parentheses has excess and depth zero.
proof fn lemma_paren_free(s: Seq<char>)
    requires
        forall|i: int| 0 <= i < s.len() ==> paren_delta(#[trigger] s[i]) == 0,
    ensures
        paren_excess(s) == 0,
        paren_depth(s) == 0,
    decreases s.len(),
{
    if s.len() > 0 {
        assert forall|i: int| 0 <= i < s.drop_last().len() implies paren_delta(
            #[trigger] s.drop_last()[i],
        ) == 0 by {
            assert(s.drop_last()[i] == s[i]);
        }
        lemma_paren_free(s.drop_last());
        assert(s.last() == s[s.len() - 1]);
    }
}

/// A name without parentheses contributes nothing to the count.
proof fn lemma_paren_free_name(name: Seq<char>)
    requires
        paren_free_name(name),
    ensures
        paren_excess(name) == 0,
        paren_depth(name) == 0,
{
    assert forall|i: int| 0 <= i < name.len() implies paren_delta(#[trigger] name[i]) == 0 by {
        assert(name[i] != '(' && name[i] != ')');
    }
    lemma_paren_free(name);
}

proof fn lemma_dec_digits_chars(n: nat)
    ensures
        forall|i: int| 0 <= i < dec_digits(n).len() ==> paren_delta(#[trigger] dec_digits(n)[i])
            == 0,
    decreases n,
{
    if n >= 10 {
        lemma_dec_digits_chars(n / 10);
        assert forall|i: int| 0 <= i < dec_digits(n).len() implies paren_delta(
            #[trigger] dec_digits(n)[i],
        ) == 0 by {
            if i < dec_digits(n).len() - 1 {
                assert(dec_digits(n)[i] == dec_digits(n / 10)[i]);
            }
        }
    }
}

proof fn lemma_int_text_paren_free(v: int)
    ensures
        forall|i: int| 0 <= i < spec_int_text(v).len() ==> paren_delta(
            #[trigger] spec_int_text(v)[i],
        ) == 0,
{
    if v < 0 {
        lemma_dec_digits_chars((-v) as nat);
        assert forall|i: int| 0 <= i < spec_int_text(v).len() implies paren_delta(
            #[trigger] spec_int_text(v)[i],
        ) == 0 by {
            if i > 0 {
                assert(spec_int_text(v)[i] == dec_digits((-v) as nat)[i - 1]);
            }
        }
    } else {
        lemma_dec_digits_chars(v as nat);
    }
}

/// For every call expression nested to depth D, the generated text has
/// balanced parentheses and its maximal parenthesis nesting depth is exactly
/// D: generation preserves the nesting shape of the tree.
pub proof fn lemma_gen_paren_depth(n: NodeV)
    requires
        is_expr(n),
        names_paren_free(n),
    ensures
        paren_excess(spec_gen(n)) == 0,
        paren_depth(spec_gen(n)) == expr_depth(n),
        expr_depth(n) >= 0,
    decreases n, 1int,
{
    match n {
        NodeV::Int { value } => {
            lemma_int_text_paren_free(value);
            lemma_paren_free(spec_int_text(value));
        },
        NodeV::VarRef { name } => {
            lemma_paren_free_name(name);
        },
        NodeV::Call { name, args } => {
            lemma_gen_list_paren(args);
            lemma_paren_free_name(name);
            reveal_strlit("(");
            reveal_strlit(")");
            let op = "("@;
            let cp = ")"@;
            assert(op =~= seq!['(']);
            assert(cp =~= seq![')']);
            assert(op.drop_last() =~= Seq::<char>::empty());
            assert(cp.drop_last() =~= Seq::<char>::empty());
            assert(paren_excess(Seq::<char>::empty()) == 0);
            assert(paren_depth(Seq::<char>::empty()) == 0);
            assert(op.last() == '(');
            assert(cp.last() == ')');
            assert(paren_excess(op) == 1);
            assert(paren_depth(op) == 1);
            assert(paren_excess(cp) == -1);
            assert(paren_depth(cp) == 0);
            let jn = spec_join(gen_each(args), ", "@);
            let d = exprs_depth(args);
            lemma_paren_concat(name, op);
            lemma_paren_concat(name + op, jn);
            lemma_paren_concat(name + op + jn, cp);
            assert(spec_gen(n) == name + op + jn + cp);
            assert(paren_excess(spec_gen(n)) == 0);
            assert(paren_depth(spec_gen(n)) == 1 + d);
        },
        _ => {},
    }
}

/// The joined texts of a list of expressions have balanced parentheses and
/// nest exactly as deep as the deepest expression of the list.
proof fn lemma_gen_list_paren(ns: Seq<NodeV>)
    requires
        forall|i: int| 0 <= i < ns.len() ==> is_expr(#[trigger] ns[i]),
        forall|i: int| 0 <= i < ns.len() ==> names_paren_free(#[trigger] ns[i]),
    ensures
        paren_excess(spec_join(gen_each(ns), ", "@)) == 0,
        paren_depth(spec_join(gen_each(ns), ", "@)) == exprs_depth(ns),
        exprs_depth(ns) >= 0,
    decreases ns, 2int,
{
    let items = gen_each(ns);
    if ns.len() == 0 {
    } else if ns.len() == 1 {
        lemma_gen_paren_depth(ns[0]);
        lemma_gen_each(ns);
        assert(ns.last() == ns[0]);
        assert(items.len() == 1);
        assert(items[0] == spec_gen(ns[0]));
        assert(spec_join(items, ", "@) == spec_gen(ns[0]));
        assert(ns.drop_last() =~= Seq::<NodeV>::empty());
        assert(exprs_depth(Seq::<NodeV>::empty()) == 0);
        assert(exprs_depth(ns) == vstd::math::max(0, expr_depth(ns[0])));
    } else {
        let prev = ns.drop_last();
        let last = ns.last();
        assert forall|i: int| 0 <= i < prev.len() implies is_expr(#[trigger] prev[i])
            && names_paren_free(prev[i]) by {
            assert(prev[i] == ns[i]);
        }
        lemma_gen_list_paren(prev);
        lemma_gen_paren_depth(last);
        lemma_gen_each(ns.drop_last());
        assert(items.drop_last() =~= gen_each(prev));
        assert(items.last() == spec_gen(last));
        assert(items.len() == ns.len()) by {
            lemma_gen_each(ns);
        }
        let jp = spec_join(gen_each(prev), ", "@);
        let sep = ", "@;
        reveal_strlit(", ");
        assert forall|i: int| 0 <= i < sep.len() implies paren_delta(#[trigger] sep[i]) == 0 by {
            assert(sep[i] == ',' || sep[i] == ' ');
        }
        lemma_paren_free(sep);
        assert(spec_join(items, sep) == jp + sep + items.last());
        lemma_paren_concat(jp, sep);
        lemma_paren_concat(jp + sep, spec_gen(last));
        assert(paren_excess(spec_join(items, sep)) == 0);
        assert(paren_depth(spec_join(items, sep)) == vstd::math::max(
            exprs_depth(prev),
            expr_depth(last),
        ));
    }
}

/// Emits the target-language text of a node by a recursive tree walk.
pub fn generate(node: &Node) -> (r: String)
    ensures
        r@ == spec_gen(node_view(*node)),
    decreases *node,
{
    match node {
        Node::Root(root_node) => generate_root(root_node),
        Node::Def(def_node) => generate_def(def_node),
        Node::Call(call_node) => generate_call(call_node),
        Node::Int(int_node) => generate_int(int_node),
        Node::VarRef(var_ref_node) => generate_var_ref(var_ref_node),
    }
}

} // verus!
