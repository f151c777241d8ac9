//! What the nodes of a syntax tree come to, written out node by node.
use crate::error::yields;
use crate::sql::ast::{
    BinaryOperator, DateTimeField, Expr, Function, FunctionArg, FunctionArguments, Literal,
    ParsedQuery, SelectItemKind, UnaryOperator,
};
use crate::sql::query::{
    classified, has_wildcard, named_items, order_items, reads_order, reads_projection, reads_query,
};
use crate::sql::read::{
    ident_display, name_display, name_prefix, reads_arg, reads_args, reads_binary, reads_expr, reads_field, reads_unary,
    reads_value,
};
use crate::sql::tree::{field, lookup, payload, Tree};
use crate::text::{decimal, law_numeral_read_back, uppercased};
use vstd::prelude::*;

verus! {

/// Whether an entry of a node is the first with a key and holds a value.
pub open spec fn entry_at(t: Tree, key: Seq<char>, v: Tree, j: int) -> bool {
    &&& t is Object
    &&& 0 <= j < t->Object_0.len()
    &&& t->Object_0[j] == (key, v)
    &&& forall|i: int| 0 <= i < j ==> (#[trigger] t->Object_0[i]).0 != key
}

/// Whether the first entry of a node with a key holds a value.
pub open spec fn entry(t: Tree, key: Seq<char>, v: Tree) -> bool {
    exists|j: int| #[trigger] entry_at(t, key, v, j)
}

/// The node of a variant that holds a value.
pub open spec fn variant(tag: Seq<char>, v: Tree) -> Tree {
    Tree::Object(seq![(tag, v)])
}

/// The first entry with a key is the one that is found.
pub proof fn law_entry_found(t: Tree, key: Seq<char>, v: Tree)
    ensures
        entry(t, key, v) <==> field(t, key) == Some(v),
{
    if t is Object {
        lemma_lookup(t->Object_0, key, v);
    }
}

proof fn lemma_lookup(entries: Seq<(Seq<char>, Tree)>, key: Seq<char>, v: Tree)
    ensures
        entry(Tree::Object(entries), key, v) <==> lookup(entries, key) == Some(v),
    decreases entries.len(),
{
    let t = Tree::Object(entries);
    if entries.len() > 0 {
        let rest = entries.skip(1);
        let u = Tree::Object(rest);
        lemma_lookup(rest, key, v);
        if entries[0].0 == key {
            if entries[0].1 == v {
                assert(entry_at(t, key, v, 0));
            }
            if entry(t, key, v) {
                let j = choose|j: int| #[trigger] entry_at(t, key, v, j);
                if j > 0 {
                    assert(t->Object_0[0].0 != key);
                }
            }
        } else {
            if entry(u, key, v) {
                let j = choose|j: int| #[trigger] entry_at(u, key, v, j);
                assert(rest[j] == entries[j + 1]);
                assert forall|i: int| 0 <= i < j + 1 implies (#[trigger] t->Object_0[i]).0
                    != key by {
                    if i > 0 {
                        assert(u->Object_0[i - 1] == entries[i]);
                    }
                }
                assert(entry_at(t, key, v, j + 1));
            }
            if entry(t, key, v) {
                let j = choose|j: int| #[trigger] entry_at(t, key, v, j);
                assert(rest[j - 1] == entries[j]);
                assert forall|i: int| 0 <= i < j - 1 implies (#[trigger] u->Object_0[i]).0
                    != key by {
                    assert(t->Object_0[i + 1] == rest[i]);
                }
                assert(entry_at(u, key, v, j - 1));
            }
        }
    }
}

/// An item of the order is descending exactly where its node says that it is not ascending:
/// `ASC` and no word at all are ascending alike. The items stand in the order of their nodes.
pub proof fn law_order_read(
    query: Tree,
    select: Tree,
    q: ParsedQuery,
    o: Tree,
    l: Seq<Tree>,
    i: int,
    x: Tree,
)
    requires
        reads_query(query, select, q),
        entry(query, "order_by"@, o),
        entry(o, "exprs"@, Tree::List(l)),
        0 <= i < l.len(),
    ensures
        q.order_by@.len() == l.len(),
        q.order_by@[i].1 <==> entry(l[i], "asc"@, Tree::Bool(false)),
        entry(l[i], "asc"@, Tree::Bool(true)) ==> !q.order_by@[i].1,
        entry(l[i], "asc"@, Tree::Null) ==> !q.order_by@[i].1,
        entry(l[i], "expr"@, x) ==> reads_expr(x, q.order_by@[i].0),
{
    law_entry_found(query, "order_by"@, o);
    law_entry_found(o, "exprs"@, Tree::List(l));
    law_entry_found(l[i], "asc"@, Tree::Bool(false));
    law_entry_found(l[i], "asc"@, Tree::Bool(true));
    law_entry_found(l[i], "asc"@, Tree::Null);
    law_entry_found(l[i], "expr"@, x);
    assert(order_items(query) == l);
    assert(reads_order(l[i], q.order_by@[i]));
}

/// A query whose node has no order is in none.
pub proof fn law_no_order_read(query: Tree, select: Tree, q: ParsedQuery)
    requires
        reads_query(query, select, q),
        entry(query, "order_by"@, Tree::Null) || forall|v: Tree| !entry(query, "order_by"@, v),
    ensures
        q.order_by@.len() == 0,
{
    law_entry_found(query, "order_by"@, Tree::Null);
    if field(query, "order_by"@) is Some {
        law_entry_found(query, "order_by"@, field(query, "order_by"@)->Some_0);
    }
}

/// The node of a number.
pub open spec fn number_node(n: int) -> Tree {
    variant(
        "Value"@,
        variant("Number"@, Tree::List(seq![Tree::Text(decimal(n)), Tree::Bool(false)])),
    )
}

/// A limit and an offset are the numbers that their nodes hold, and none where a query has
/// none.
pub proof fn law_limit_read(query: Tree, select: Tree, q: ParsedQuery, o: Tree, n: u64)
    requires
        reads_query(query, select, q),
    ensures
        entry(query, "limit"@, number_node(n as int)) ==> q.limit == Some(n),
        entry(query, "limit"@, Tree::Null) ==> q.limit is None,
        entry(query, "offset"@, o) && entry(o, "value"@, number_node(n as int)) ==> q.offset
            == Some(n),
        entry(query, "offset"@, Tree::Null) ==> q.offset is None,
{
    law_entry_found(query, "limit"@, number_node(n as int));
    law_entry_found(query, "limit"@, Tree::Null);
    law_entry_found(query, "offset"@, o);
    law_entry_found(o, "value"@, number_node(n as int));
    law_entry_found(query, "offset"@, Tree::Null);
    law_numeral_read_back(n as int);
}

/// The condition and the condition on groups are what their nodes say, and are left out
/// where those are.
pub proof fn law_conditions_read(query: Tree, select: Tree, q: ParsedQuery, x: Tree)
    requires
        reads_query(query, select, q),
        x != Tree::Null,
    ensures
        entry(select, "selection"@, x) ==> q.where_expr is Some && reads_expr(
            x,
            q.where_expr->Some_0,
        ),
        entry(select, "selection"@, Tree::Null) ==> q.where_expr is None,
        entry(select, "having"@, x) ==> q.having is Some && reads_expr(x, q.having->Some_0),
        entry(select, "having"@, Tree::Null) ==> q.having is None,
{
    law_entry_found(select, "selection"@, x);
    law_entry_found(select, "selection"@, Tree::Null);
    law_entry_found(select, "having"@, x);
    law_entry_found(select, "having"@, Tree::Null);
}

/// The grouping expressions are what the nodes of the list say, in order.
pub proof fn law_groups_read(query: Tree, select: Tree, q: ParsedQuery, l: Seq<Tree>, i: int)
    requires
        reads_query(query, select, q),
        entry(
            select,
            "group_by"@,
            variant("Expressions"@, Tree::List(seq![Tree::List(l), Tree::List(Seq::empty())])),
        ),
    ensures
        q.group_by@.len() == l.len(),
        0 <= i < l.len() ==> reads_expr(l[i], q.group_by@[i]),
{
    law_entry_found(
        select,
        "group_by"@,
        variant("Expressions"@, Tree::List(seq![Tree::List(l), Tree::List(Seq::empty())])),
    );
}

/// The tags of expression nodes are distinct.
proof fn lemma_tags()
    ensures
        "Identifier"@ != "CompoundIdentifier"@,
        "Identifier"@ != "Value"@,
        "Identifier"@ != "BinaryOp"@,
        "Identifier"@ != "UnaryOp"@,
        "Identifier"@ != "Nested"@,
        "Identifier"@ != "Cast"@,
        "Identifier"@ != "Like"@,
        "Identifier"@ != "ILike"@,
        "Identifier"@ != "InList"@,
        "Identifier"@ != "Function"@,
        "Identifier"@ != "Case"@,
        "Identifier"@ != "Extract"@,
        "Identifier"@ != "IsNull"@,
        "CompoundIdentifier"@ != "Value"@,
        "CompoundIdentifier"@ != "BinaryOp"@,
        "CompoundIdentifier"@ != "UnaryOp"@,
        "CompoundIdentifier"@ != "Nested"@,
        "CompoundIdentifier"@ != "Cast"@,
        "CompoundIdentifier"@ != "Like"@,
        "CompoundIdentifier"@ != "ILike"@,
        "CompoundIdentifier"@ != "InList"@,
        "CompoundIdentifier"@ != "Function"@,
        "CompoundIdentifier"@ != "Case"@,
        "CompoundIdentifier"@ != "Extract"@,
        "CompoundIdentifier"@ != "IsNull"@,
        "Value"@ != "BinaryOp"@,
        "Value"@ != "UnaryOp"@,
        "Value"@ != "Nested"@,
        "Value"@ != "Cast"@,
        "Value"@ != "Like"@,
        "Value"@ != "ILike"@,
        "Value"@ != "InList"@,
        "Value"@ != "Function"@,
        "Value"@ != "Case"@,
        "Value"@ != "Extract"@,
        "Value"@ != "IsNull"@,
        "BinaryOp"@ != "UnaryOp"@,
        "BinaryOp"@ != "Nested"@,
        "BinaryOp"@ != "Cast"@,
        "BinaryOp"@ != "Like"@,
        "BinaryOp"@ != "ILike"@,
        "BinaryOp"@ != "InList"@,
        "BinaryOp"@ != "Function"@,
        "BinaryOp"@ != "Case"@,
        "BinaryOp"@ != "Extract"@,
        "BinaryOp"@ != "IsNull"@,
        "UnaryOp"@ != "Nested"@,
        "UnaryOp"@ != "Cast"@,
        "UnaryOp"@ != "Like"@,
        "UnaryOp"@ != "ILike"@,
        "UnaryOp"@ != "InList"@,
        "UnaryOp"@ != "Function"@,
        "UnaryOp"@ != "Case"@,
        "UnaryOp"@ != "Extract"@,
        "UnaryOp"@ != "IsNull"@,
        "Nested"@ != "Cast"@,
        "Nested"@ != "Like"@,
        "Nested"@ != "ILike"@,
        "Nested"@ != "InList"@,
        "Nested"@ != "Function"@,
        "Nested"@ != "Case"@,
        "Nested"@ != "Extract"@,
        "Nested"@ != "IsNull"@,
        "Cast"@ != "Like"@,
        "Cast"@ != "ILike"@,
        "Cast"@ != "InList"@,
        "Cast"@ != "Function"@,
        "Cast"@ != "Case"@,
        "Cast"@ != "Extract"@,
        "Cast"@ != "IsNull"@,
        "Like"@ != "ILike"@,
        "Like"@ != "InList"@,
        "Like"@ != "Function"@,
        "Like"@ != "Case"@,
        "Like"@ != "Extract"@,
        "Like"@ != "IsNull"@,
        "ILike"@ != "InList"@,
        "ILike"@ != "Function"@,
        "ILike"@ != "Case"@,
        "ILike"@ != "Extract"@,
        "ILike"@ != "IsNull"@,
        "InList"@ != "Function"@,
        "InList"@ != "Case"@,
        "InList"@ != "Extract"@,
        "InList"@ != "IsNull"@,
        "Function"@ != "Case"@,
        "Function"@ != "Extract"@,
        "Function"@ != "IsNull"@,
        "Case"@ != "Extract"@,
        "Case"@ != "IsNull"@,
        "Extract"@ != "IsNull"@,
{
    reveal_strlit("Identifier");
    reveal_strlit("CompoundIdentifier");
    reveal_strlit("Value");
    reveal_strlit("BinaryOp");
    reveal_strlit("UnaryOp");
    reveal_strlit("Nested");
    reveal_strlit("Cast");
    reveal_strlit("Like");
    reveal_strlit("ILike");
    reveal_strlit("InList");
    reveal_strlit("Function");
    reveal_strlit("Case");
    reveal_strlit("Extract");
    reveal_strlit("IsNull");
    assert("Identifier"@.len() != "CompoundIdentifier"@.len());
    assert("Identifier"@.len() != "Value"@.len());
    assert("Identifier"@.len() != "BinaryOp"@.len());
    assert("Identifier"@.len() != "UnaryOp"@.len());
    assert("Identifier"@.len() != "Nested"@.len());
    assert("Identifier"@.len() != "Cast"@.len());
    assert("Identifier"@.len() != "Like"@.len());
    assert("Identifier"@.len() != "ILike"@.len());
    assert("Identifier"@.len() != "InList"@.len());
    assert("Identifier"@.len() != "Function"@.len());
    assert("Identifier"@.len() != "Case"@.len());
    assert("Identifier"@.len() != "Extract"@.len());
    assert("Identifier"@.len() != "IsNull"@.len());
    assert("CompoundIdentifier"@.len() != "Value"@.len());
    assert("CompoundIdentifier"@.len() != "BinaryOp"@.len());
    assert("CompoundIdentifier"@.len() != "UnaryOp"@.len());
    assert("CompoundIdentifier"@.len() != "Nested"@.len());
    assert("CompoundIdentifier"@.len() != "Cast"@.len());
    assert("CompoundIdentifier"@.len() != "Like"@.len());
    assert("CompoundIdentifier"@.len() != "ILike"@.len());
    assert("CompoundIdentifier"@.len() != "InList"@.len());
    assert("CompoundIdentifier"@.len() != "Function"@.len());
    assert("CompoundIdentifier"@.len() != "Case"@.len());
    assert("CompoundIdentifier"@.len() != "Extract"@.len());
    assert("CompoundIdentifier"@.len() != "IsNull"@.len());
    assert("Value"@.len() != "BinaryOp"@.len());
    assert("Value"@.len() != "UnaryOp"@.len());
    assert("Value"@.len() != "Nested"@.len());
    assert("Value"@.len() != "Cast"@.len());
    assert("Value"@.len() != "Like"@.len());
    assert("Value"@[0] != "ILike"@[0]);
    assert("Value"@.len() != "InList"@.len());
    assert("Value"@.len() != "Function"@.len());
    assert("Value"@.len() != "Case"@.len());
    assert("Value"@.len() != "Extract"@.len());
    assert("Value"@.len() != "IsNull"@.len());
    assert("BinaryOp"@.len() != "UnaryOp"@.len());
    assert("BinaryOp"@.len() != "Nested"@.len());
    assert("BinaryOp"@.len() != "Cast"@.len());
    assert("BinaryOp"@.len() != "Like"@.len());
    assert("BinaryOp"@.len() != "ILike"@.len());
    assert("BinaryOp"@.len() != "InList"@.len());
    assert("BinaryOp"@[0] != "Function"@[0]);
    assert("BinaryOp"@.len() != "Case"@.len());
    assert("BinaryOp"@.len() != "Extract"@.len());
    assert("BinaryOp"@.len() != "IsNull"@.len());
    assert("UnaryOp"@.len() != "Nested"@.len());
    assert("UnaryOp"@.len() != "Cast"@.len());
    assert("UnaryOp"@.len() != "Like"@.len());
    assert("UnaryOp"@.len() != "ILike"@.len());
    assert("UnaryOp"@.len() != "InList"@.len());
    assert("UnaryOp"@.len() != "Function"@.len());
    assert("UnaryOp"@.len() != "Case"@.len());
    assert("UnaryOp"@[0] != "Extract"@[0]);
    assert("UnaryOp"@.len() != "IsNull"@.len());
    assert("Nested"@.len() != "Cast"@.len());
    assert("Nested"@.len() != "Like"@.len());
    assert("Nested"@.len() != "ILike"@.len());
    assert("Nested"@[0] != "InList"@[0]);
    assert("Nested"@.len() != "Function"@.len());
    assert("Nested"@.len() != "Case"@.len());
    assert("Nested"@.len() != "Extract"@.len());
    assert("Nested"@[0] != "IsNull"@[0]);
    assert("Cast"@[0] != "Like"@[0]);
    assert("Cast"@.len() != "ILike"@.len());
    assert("Cast"@.len() != "InList"@.len());
    assert("Cast"@.len() != "Function"@.len());
    assert("Cast"@[3] != "Case"@[3]);
    assert("Cast"@.len() != "Extract"@.len());
    assert("Cast"@.len() != "IsNull"@.len());
    assert("Like"@.len() != "ILike"@.len());
    assert("Like"@.len() != "InList"@.len());
    assert("Like"@.len() != "Function"@.len());
    assert("Like"@[0] != "Case"@[0]);
    assert("Like"@.len() != "Extract"@.len());
    assert("Like"@.len() != "IsNull"@.len());
    assert("ILike"@.len() != "InList"@.len());
    assert("ILike"@.len() != "Function"@.len());
    assert("ILike"@.len() != "Case"@.len());
    assert("ILike"@.len() != "Extract"@.len());
    assert("ILike"@.len() != "IsNull"@.len());
    assert("InList"@.len() != "Function"@.len());
    assert("InList"@.len() != "Case"@.len());
    assert("InList"@.len() != "Extract"@.len());
    assert("InList"@[1] != "IsNull"@[1]);
    assert("Function"@.len() != "Case"@.len());
    assert("Function"@.len() != "Extract"@.len());
    assert("Function"@.len() != "IsNull"@.len());
    assert("Case"@.len() != "Extract"@.len());
    assert("Case"@.len() != "IsNull"@.len());
    assert("Extract"@.len() != "IsNull"@.len());
}

/// The tags of operator nodes are distinct.
proof fn lemma_operator_tags()
    ensures
        "Plus"@ != "Minus"@,
        "Plus"@ != "Multiply"@,
        "Plus"@ != "Divide"@,
        "Plus"@ != "Gt"@,
        "Plus"@ != "Lt"@,
        "Plus"@ != "GtEq"@,
        "Plus"@ != "LtEq"@,
        "Plus"@ != "Eq"@,
        "Plus"@ != "NotEq"@,
        "Plus"@ != "And"@,
        "Plus"@ != "Or"@,
        "Minus"@ != "Multiply"@,
        "Minus"@ != "Divide"@,
        "Minus"@ != "Gt"@,
        "Minus"@ != "Lt"@,
        "Minus"@ != "GtEq"@,
        "Minus"@ != "LtEq"@,
        "Minus"@ != "Eq"@,
        "Minus"@ != "NotEq"@,
        "Minus"@ != "And"@,
        "Minus"@ != "Or"@,
        "Multiply"@ != "Divide"@,
        "Multiply"@ != "Gt"@,
        "Multiply"@ != "Lt"@,
        "Multiply"@ != "GtEq"@,
        "Multiply"@ != "LtEq"@,
        "Multiply"@ != "Eq"@,
        "Multiply"@ != "NotEq"@,
        "Multiply"@ != "And"@,
        "Multiply"@ != "Or"@,
        "Divide"@ != "Gt"@,
        "Divide"@ != "Lt"@,
        "Divide"@ != "GtEq"@,
        "Divide"@ != "LtEq"@,
        "Divide"@ != "Eq"@,
        "Divide"@ != "NotEq"@,
        "Divide"@ != "And"@,
        "Divide"@ != "Or"@,
        "Gt"@ != "Lt"@,
        "Gt"@ != "GtEq"@,
        "Gt"@ != "LtEq"@,
        "Gt"@ != "Eq"@,
        "Gt"@ != "NotEq"@,
        "Gt"@ != "And"@,
        "Gt"@ != "Or"@,
        "Lt"@ != "GtEq"@,
        "Lt"@ != "LtEq"@,
        "Lt"@ != "Eq"@,
        "Lt"@ != "NotEq"@,
        "Lt"@ != "And"@,
        "Lt"@ != "Or"@,
        "GtEq"@ != "LtEq"@,
        "GtEq"@ != "Eq"@,
        "GtEq"@ != "NotEq"@,
        "GtEq"@ != "And"@,
        "GtEq"@ != "Or"@,
        "LtEq"@ != "Eq"@,
        "LtEq"@ != "NotEq"@,
        "LtEq"@ != "And"@,
        "LtEq"@ != "Or"@,
        "Eq"@ != "NotEq"@,
        "Eq"@ != "And"@,
        "Eq"@ != "Or"@,
        "NotEq"@ != "And"@,
        "NotEq"@ != "Or"@,
        "And"@ != "Or"@,
{
    reveal_strlit("Plus");
    reveal_strlit("Minus");
    reveal_strlit("Multiply");
    reveal_strlit("Divide");
    reveal_strlit("Gt");
    reveal_strlit("Lt");
    reveal_strlit("GtEq");
    reveal_strlit("LtEq");
    reveal_strlit("Eq");
    reveal_strlit("NotEq");
    reveal_strlit("And");
    reveal_strlit("Or");
    assert("Plus"@.len() != "Minus"@.len());
    assert("Plus"@.len() != "Multiply"@.len());
    assert("Plus"@.len() != "Divide"@.len());
    assert("Plus"@.len() != "Gt"@.len());
    assert("Plus"@.len() != "Lt"@.len());
    assert("Plus"@[0] != "GtEq"@[0]);
    assert("Plus"@[0] != "LtEq"@[0]);
    assert("Plus"@.len() != "Eq"@.len());
    assert("Plus"@.len() != "NotEq"@.len());
    assert("Plus"@.len() != "And"@.len());
    assert("Plus"@.len() != "Or"@.len());
    assert("Minus"@.len() != "Multiply"@.len());
    assert("Minus"@.len() != "Divide"@.len());
    assert("Minus"@.len() != "Gt"@.len());
    assert("Minus"@.len() != "Lt"@.len());
    assert("Minus"@.len() != "GtEq"@.len());
    assert("Minus"@.len() != "LtEq"@.len());
    assert("Minus"@.len() != "Eq"@.len());
    assert("Minus"@[0] != "NotEq"@[0]);
    assert("Minus"@.len() != "And"@.len());
    assert("Minus"@.len() != "Or"@.len());
    assert("Multiply"@.len() != "Divide"@.len());
    assert("Multiply"@.len() != "Gt"@.len());
    assert("Multiply"@.len() != "Lt"@.len());
    assert("Multiply"@.len() != "GtEq"@.len());
    assert("Multiply"@.len() != "LtEq"@.len());
    assert("Multiply"@.len() != "Eq"@.len());
    assert("Multiply"@.len() != "NotEq"@.len());
    assert("Multiply"@.len() != "And"@.len());
    assert("Multiply"@.len() != "Or"@.len());
    assert("Divide"@.len() != "Gt"@.len());
    assert("Divide"@.len() != "Lt"@.len());
    assert("Divide"@.len() != "GtEq"@.len());
    assert("Divide"@.len() != "LtEq"@.len());
    assert("Divide"@.len() != "Eq"@.len());
    assert("Divide"@.len() != "NotEq"@.len());
    assert("Divide"@.len() != "And"@.len());
    assert("Divide"@.len() != "Or"@.len());
    assert("Gt"@[0] != "Lt"@[0]);
    assert("Gt"@.len() != "GtEq"@.len());
    assert("Gt"@.len() != "LtEq"@.len());
    assert("Gt"@[0] != "Eq"@[0]);
    assert("Gt"@.len() != "NotEq"@.len());
    assert("Gt"@.len() != "And"@.len());
    assert("Gt"@[0] != "Or"@[0]);
    assert("Lt"@.len() != "GtEq"@.len());
    assert("Lt"@.len() != "LtEq"@.len());
    assert("Lt"@[0] != "Eq"@[0]);
    assert("Lt"@.len() != "NotEq"@.len());
    assert("Lt"@.len() != "And"@.len());
    assert("Lt"@[0] != "Or"@[0]);
    assert("GtEq"@[0] != "LtEq"@[0]);
    assert("GtEq"@.len() != "Eq"@.len());
    assert("GtEq"@.len() != "NotEq"@.len());
    assert("GtEq"@.len() != "And"@.len());
    assert("GtEq"@.len() != "Or"@.len());
    assert("LtEq"@.len() != "Eq"@.len());
    assert("LtEq"@.len() != "NotEq"@.len());
    assert("LtEq"@.len() != "And"@.len());
    assert("LtEq"@.len() != "Or"@.len());
    assert("Eq"@.len() != "NotEq"@.len());
    assert("Eq"@.len() != "And"@.len());
    assert("Eq"@[0] != "Or"@[0]);
    assert("NotEq"@.len() != "And"@.len());
    assert("NotEq"@.len() != "Or"@.len());
    assert("And"@.len() != "Or"@.len());
}

/// The tags of the operators in front of an expression are distinct.
proof fn lemma_unary_tags()
    ensures
        "Minus"@ != "Not"@,
{
    reveal_strlit("Minus");
    reveal_strlit("Not");
    assert("Minus"@.len() != "Not"@.len());
}

/// The tags of the parts of a time are distinct.
proof fn lemma_field_tags()
    ensures
        "Minute"@ != "Hour"@,
        "Minute"@ != "Day"@,
        "Minute"@ != "Month"@,
        "Minute"@ != "Year"@,
        "Hour"@ != "Day"@,
        "Hour"@ != "Month"@,
        "Hour"@ != "Year"@,
        "Day"@ != "Month"@,
        "Day"@ != "Year"@,
        "Month"@ != "Year"@,
{
    reveal_strlit("Minute");
    reveal_strlit("Hour");
    reveal_strlit("Day");
    reveal_strlit("Month");
    reveal_strlit("Year");
    assert("Minute"@.len() != "Hour"@.len());
    assert("Minute"@.len() != "Day"@.len());
    assert("Minute"@.len() != "Month"@.len());
    assert("Minute"@.len() != "Year"@.len());
    assert("Hour"@.len() != "Day"@.len());
    assert("Hour"@.len() != "Month"@.len());
    assert("Hour"@[0] != "Year"@[0]);
    assert("Day"@.len() != "Month"@.len());
    assert("Day"@.len() != "Year"@.len());
    assert("Month"@.len() != "Year"@.len());
}

/// The tags of literals are distinct.
proof fn lemma_literal_tags()
    ensures
        "Number"@ != "SingleQuotedString"@,
        "Number"@ != "DoubleQuotedString"@,
        "Number"@ != "EscapedStringLiteral"@,
        "Number"@ != "Boolean"@,
        "SingleQuotedString"@ != "DoubleQuotedString"@,
        "SingleQuotedString"@ != "EscapedStringLiteral"@,
        "SingleQuotedString"@ != "Boolean"@,
        "DoubleQuotedString"@ != "EscapedStringLiteral"@,
        "DoubleQuotedString"@ != "Boolean"@,
        "EscapedStringLiteral"@ != "Boolean"@,
{
    reveal_strlit("Number");
    reveal_strlit("SingleQuotedString");
    reveal_strlit("DoubleQuotedString");
    reveal_strlit("EscapedStringLiteral");
    reveal_strlit("Boolean");
    assert("Number"@.len() != "SingleQuotedString"@.len());
    assert("Number"@.len() != "DoubleQuotedString"@.len());
    assert("Number"@.len() != "EscapedStringLiteral"@.len());
    assert("Number"@.len() != "Boolean"@.len());
    assert("SingleQuotedString"@[0] != "DoubleQuotedString"@[0]);
    assert("SingleQuotedString"@.len() != "EscapedStringLiteral"@.len());
    assert("SingleQuotedString"@.len() != "Boolean"@.len());
    assert("DoubleQuotedString"@.len() != "EscapedStringLiteral"@.len());
    assert("DoubleQuotedString"@.len() != "Boolean"@.len());
    assert("EscapedStringLiteral"@.len() != "Boolean"@.len());
}

/// An operator between two expressions is the one that its node names.
pub proof fn law_operator_read(op: BinaryOperator)
    ensures
        reads_binary(Tree::Text("Plus"@), op) <==> op is Plus,
        reads_binary(Tree::Text("Minus"@), op) <==> op is Minus,
        reads_binary(Tree::Text("Multiply"@), op) <==> op is Multiply,
        reads_binary(Tree::Text("Divide"@), op) <==> op is Divide,
        reads_binary(Tree::Text("Gt"@), op) <==> op is Gt,
        reads_binary(Tree::Text("Lt"@), op) <==> op is Lt,
        reads_binary(Tree::Text("GtEq"@), op) <==> op is GtEq,
        reads_binary(Tree::Text("LtEq"@), op) <==> op is LtEq,
        reads_binary(Tree::Text("Eq"@), op) <==> op is Eq,
        reads_binary(Tree::Text("NotEq"@), op) <==> op is NotEq,
        reads_binary(Tree::Text("And"@), op) <==> op is And,
        reads_binary(Tree::Text("Or"@), op) <==> op is Or,
{
    lemma_operator_tags();
}

/// An operator in front of an expression is the one that its node names.
pub proof fn law_unary_read(op: UnaryOperator)
    ensures
        reads_unary(Tree::Text("Minus"@), op) <==> op is Minus,
        reads_unary(Tree::Text("Not"@), op) <==> op is Not,
{
    lemma_unary_tags();
}

/// A part of a time is the one that its node names.
pub proof fn law_field_read(f: DateTimeField)
    ensures
        reads_field(Tree::Text("Minute"@), f) <==> f is Minute,
        reads_field(Tree::Text("Hour"@), f) <==> f is Hour,
        reads_field(Tree::Text("Day"@), f) <==> f is Day,
        reads_field(Tree::Text("Month"@), f) <==> f is Month,
        reads_field(Tree::Text("Year"@), f) <==> f is Year,
{
    lemma_field_tags();
}

/// A literal is what its node holds.
pub proof fn law_literal_read(s: Seq<char>, long: bool, b: bool, v: Literal)
    ensures
        reads_value(variant("Number"@, Tree::List(seq![Tree::Text(s), Tree::Bool(long)])), v)
            <==> (v matches Literal::Number(x) && x@ == s),
        reads_value(variant("SingleQuotedString"@, Tree::Text(s)), v) <==> (v matches
            Literal::SingleQuotedString(x) && x@ == s),
        reads_value(variant("DoubleQuotedString"@, Tree::Text(s)), v) <==> (v matches
            Literal::DoubleQuotedString(x) && x@ == s),
        reads_value(variant("EscapedStringLiteral"@, Tree::Text(s)), v) <==> (v matches
            Literal::EscapedStringLiteral(x) && x@ == s),
        reads_value(variant("Boolean"@, Tree::Bool(b)), v) <==> v == Literal::Boolean(b),
{
    lemma_literal_tags();
}

/// The name of a column is the name in its node.
pub proof fn law_name_read(t: Tree, e: Expr, s: Seq<char>)
    requires
        entry(t, "value"@, Tree::Text(s)),
        reads_expr(variant("Identifier"@, t), e),
    ensures
        e matches Expr::Identifier(x) && x@ == s,
{
    lemma_tags();
    law_entry_found(t, "value"@, Tree::Text(s));
}

/// A literal, an expression in brackets and a test for nothing are what is inside their
/// nodes.
pub proof fn law_inner_read(x: Tree, e: Expr)
    ensures
        reads_expr(variant("Value"@, x), e) <==> (e matches Expr::Value(v) && reads_value(x, v)),
        reads_expr(variant("Nested"@, x), e) <==> (e matches Expr::Nested(y) && reads_expr(
            x,
            *y,
        )),
        reads_expr(variant("IsNull"@, x), e) <==> (e matches Expr::IsNull(y) && reads_expr(
            x,
            *y,
        )),
{
    lemma_tags();
}

/// An operation is read with its operands in the order of the node.
pub proof fn law_operation_read(t: Tree, left: Tree, op: Tree, right: Tree, e: Expr)
    requires
        entry(t, "left"@, left),
        entry(t, "op"@, op),
        entry(t, "right"@, right),
    ensures
        reads_expr(variant("BinaryOp"@, t), e) <==> (e matches Expr::BinaryOp {
            left: a,
            op: o,
            right: b,
        } && reads_expr(left, *a) && reads_binary(op, o) && reads_expr(right, *b)),
{
    lemma_tags();
    law_entry_found(t, "left"@, left);
    law_entry_found(t, "op"@, op);
    law_entry_found(t, "right"@, right);
}

/// An operation on one expression, a part of a time and a conversion are read from the
/// expression in their nodes.
pub proof fn law_single_read(t: Tree, op: Tree, x: Tree, e: Expr)
    requires
        entry(t, "expr"@, x),
    ensures
        entry(t, "op"@, op) ==> (reads_expr(variant("UnaryOp"@, t), e) <==> (e matches
            Expr::UnaryOp { op: o, expr: y } && reads_unary(op, o) && reads_expr(x, *y))),
        entry(t, "field"@, op) ==> (reads_expr(variant("Extract"@, t), e) <==> (e matches
            Expr::Extract { field: f, expr: y } && reads_field(op, f) && reads_expr(x, *y))),
        reads_expr(variant("Cast"@, t), e) <==> (e matches Expr::Cast { expr: y } && reads_expr(
            x,
            *y,
        )),
{
    lemma_tags();
    law_entry_found(t, "expr"@, x);
    law_entry_found(t, "op"@, op);
    law_entry_found(t, "field"@, op);
}

/// A match with a pattern is negated exactly where its node says so.
pub proof fn law_like_read(t: Tree, x: Tree, p: Tree, e: Expr)
    requires
        entry(t, "expr"@, x),
        entry(t, "pattern"@, p),
    ensures
        reads_expr(variant("Like"@, t), e) <==> (e matches Expr::Like { negated, expr, pattern }
            && reads_expr(x, *expr) && reads_expr(p, *pattern) && negated == entry(
            t,
            "negated"@,
            Tree::Bool(true),
        )),
        reads_expr(variant("ILike"@, t), e) <==> (e matches Expr::ILike {
            negated,
            expr,
            pattern,
        } && reads_expr(x, *expr) && reads_expr(p, *pattern) && negated == entry(
            t,
            "negated"@,
            Tree::Bool(true),
        )),
{
    lemma_tags();
    law_entry_found(t, "expr"@, x);
    law_entry_found(t, "pattern"@, p);
    law_entry_found(t, "negated"@, Tree::Bool(true));
}

/// A membership in a list is negated exactly where its node says so, and its list is the
/// list of the node.
pub proof fn law_in_list_read(t: Tree, x: Tree, l: Seq<Tree>, e: Expr, i: int)
    requires
        entry(t, "expr"@, x),
        entry(t, "list"@, Tree::List(l)),
        reads_expr(variant("InList"@, t), e),
    ensures
        e is InList,
        reads_expr(x, *e->InList_expr),
        e->InList_list@.len() == l.len(),
        0 <= i < l.len() ==> reads_expr(l[i], e->InList_list@[i]),
        e->InList_negated <==> entry(t, "negated"@, Tree::Bool(true)),
{
    lemma_tags();
    law_entry_found(t, "expr"@, x);
    law_entry_found(t, "list"@, Tree::List(l));
    law_entry_found(t, "negated"@, Tree::Bool(true));
}

/// The arguments of a function are those of its node, in order, and `DISTINCT` is read
/// exactly where the node has it.
pub proof fn law_arguments_read(t: Tree, l: Seq<Tree>, a: FunctionArguments, i: int)
    requires
        entry(t, "args"@, Tree::List(l)),
        reads_args(variant("List"@, t), a),
    ensures
        a is List,
        a->args@.len() == l.len(),
        0 <= i < l.len() ==> reads_arg(l[i], a->args@[i]),
        a->distinct <==> entry(t, "duplicate_treatment"@, Tree::Text("Distinct"@)),
{
    law_entry_found(t, "args"@, Tree::List(l));
    law_entry_found(t, "duplicate_treatment"@, Tree::Text("Distinct"@));
}

/// An argument is the expression of its node, or a star.
pub proof fn law_argument_read(x: Tree, a: FunctionArg)
    ensures
        reads_arg(variant("Unnamed"@, variant("Expr"@, x)), a) <==> (a matches FunctionArg::Expr(e)
            && reads_expr(x, e)),
        reads_arg(variant("Unnamed"@, Tree::Text("Wildcard"@)), a) <==> a is Wildcard,
{
    let n = variant("Unnamed"@, variant("Expr"@, x));
    assert(variant("Expr"@, x)->Object_0[0] == ("Expr"@, x));
    assert(n->Object_0[0].1 == variant("Expr"@, x));
}

/// A choice is read with its conditions and results in the order of the node, and with the
/// result for the rest where the node has one.
pub proof fn law_case_read(
    t: Tree,
    conditions: Seq<Tree>,
    results: Seq<Tree>,
    x: Tree,
    e: Expr,
    i: int,
)
    requires
        entry(t, "conditions"@, Tree::List(conditions)),
        entry(t, "results"@, Tree::List(results)),
        reads_expr(variant("Case"@, t), e),
        x != Tree::Null,
    ensures
        e is Case,
        e->Case_conditions@.len() == conditions.len(),
        e->Case_results@.len() == results.len(),
        0 <= i < conditions.len() ==> reads_expr(conditions[i], e->Case_conditions@[i]),
        0 <= i < results.len() ==> reads_expr(results[i], e->Case_results@[i]),
        entry(t, "else_result"@, x) ==> e->Case_else_result is Some && reads_expr(
            x,
            *e->Case_else_result->Some_0,
        ),
        entry(t, "else_result"@, Tree::Null) ==> e->Case_else_result is None,
        entry(t, "operand"@, x) ==> e->Case_operand is Some && reads_expr(
            x,
            *e->Case_operand->Some_0,
        ),
        entry(t, "operand"@, Tree::Null) ==> e->Case_operand is None,
{
    lemma_tags();
    law_entry_found(t, "conditions"@, Tree::List(conditions));
    law_entry_found(t, "results"@, Tree::List(results));
    law_entry_found(t, "else_result"@, x);
    law_entry_found(t, "else_result"@, Tree::Null);
    law_entry_found(t, "operand"@, x);
    law_entry_found(t, "operand"@, Tree::Null);
}

/// Whether a node of the select list is a star.
pub open spec fn is_star(t: Tree) -> bool {
    exists|x: Tree| t == #[trigger] variant("Wildcard"@, x)
}

/// The items of a list without stars are all kept.
proof fn lemma_no_stars(l: Seq<Tree>)
    requires
        forall|i: int| 0 <= i < l.len() ==> !is_star(#[trigger] l[i]),
    ensures
        named_items(l) == l,
    decreases l.len(),
{
    if l.len() > 0 {
        let last = l.last();
        assert(last == l[l.len() - 1]);
        if payload(last, "Wildcard"@) is Some {
            let x = payload(last, "Wildcard"@)->Some_0;
            assert(last->Object_0 =~= seq![("Wildcard"@, x)]);
            assert(last == variant("Wildcard"@, x));
        }
        assert forall|i: int| 0 <= i < l.len() - 1 implies !is_star(
            #[trigger] l.drop_last()[i],
        ) by {
            assert(l.drop_last()[i] == l[i]);
        }
        lemma_no_stars(l.drop_last());
        assert(l.drop_last().push(last) =~= l);
    }
}

/// Without a star the items of the select list are read one by one, in order: each from its
/// expression, with the alias that its node has, if any. All columns are selected exactly
/// where a star is in the list.
pub proof fn law_select_list_read(
    query: Tree,
    select: Tree,
    q: ParsedQuery,
    l: Seq<Tree>,
    i: int,
    t: Tree,
    x: Tree,
    a: Tree,
    name: Seq<char>,
)
    requires
        reads_query(query, select, q),
        entry(select, "projection"@, Tree::List(l)),
    ensures
        q.select_all <==> exists|k: int| 0 <= k < l.len() && is_star(#[trigger] l[k]),
        !q.select_all ==> q.select_items@.len() == l.len(),
        !q.select_all && 0 <= i < l.len() && l[i] == variant("UnnamedExpr"@, x) ==> {
            &&& q.select_items@[i].alias is None
            &&& exists|e: Expr| #[trigger]
                reads_expr(x, e) && yields(classified(e), q.select_items@[i].kind)
        },
        !q.select_all && 0 <= i < l.len() && l[i] == variant("ExprWithAlias"@, t) && entry(
            t,
            "expr"@,
            x,
        ) && entry(t, "alias"@, a) && entry(a, "value"@, Tree::Text(name)) ==> {
            &&& q.select_items@[i].alias is Some
            &&& q.select_items@[i].alias->Some_0@ == name
            &&& exists|e: Expr| #[trigger]
                reads_expr(x, e) && yields(classified(e), q.select_items@[i].kind)
        },
{
    law_entry_found(select, "projection"@, Tree::List(l));
    law_entry_found(t, "expr"@, x);
    law_entry_found(t, "alias"@, a);
    law_entry_found(a, "value"@, Tree::Text(name));
    assert forall|k: int| 0 <= k < l.len() implies is_star(#[trigger] l[k]) == (payload(
        l[k],
        "Wildcard"@,
    ) is Some) by {
        if payload(l[k], "Wildcard"@) is Some {
            let y = payload(l[k], "Wildcard"@)->Some_0;
            assert(l[k]->Object_0 =~= seq![("Wildcard"@, y)]);
            assert(l[k] == variant("Wildcard"@, y));
        }
    }
    if exists|k: int| 0 <= k < l.len() && is_star(#[trigger] l[k]) {
        let k = choose|k: int| 0 <= k < l.len() && is_star(#[trigger] l[k]);
        assert(payload(l[k], "Wildcard"@) is Some);
    }
    if !q.select_all {
        assert forall|k: int| 0 <= k < l.len() implies !is_star(#[trigger] l[k]) by {
            assert(payload(l[k], "Wildcard"@) is None);
        }
        lemma_no_stars(l);
        if 0 <= i < l.len() {
            assert(reads_projection(l[i], q.select_items@[i]));
            reveal_strlit("UnnamedExpr");
            reveal_strlit("ExprWithAlias");
            assert("UnnamedExpr"@.len() != "ExprWithAlias"@.len());
        }
    }
}

/// The names of aggregates are distinct.
proof fn lemma_aggregate_names()
    ensures
        "COUNT"@ != "SUM"@,
        "COUNT"@ != "AVG"@,
        "COUNT"@ != "MIN"@,
        "COUNT"@ != "MAX"@,
        "SUM"@ != "AVG"@,
        "SUM"@ != "MIN"@,
        "SUM"@ != "MAX"@,
        "AVG"@ != "MIN"@,
        "AVG"@ != "MAX"@,
        "MIN"@ != "MAX"@,
{
    reveal_strlit("COUNT");
    reveal_strlit("SUM");
    reveal_strlit("AVG");
    reveal_strlit("MIN");
    reveal_strlit("MAX");
    assert("COUNT"@.len() == 5 && "SUM"@.len() == 3 && "AVG"@.len() == 3);
    assert("MIN"@.len() == 3 && "MAX"@.len() == 3);
    assert("SUM"@[0] == 'S' && "AVG"@[0] == 'A' && "MIN"@[0] == 'M' && "MAX"@[0] == 'M');
    assert("MIN"@[1] == 'I' && "MAX"@[1] == 'A');
}

/// A call of an aggregate with one plain argument stands for that aggregate of the argument;
/// a count of `*` or of nothing counts rows, a count with `DISTINCT` counts different values,
/// and no other aggregate takes `DISTINCT`. It is all the same in
/// which case the letters of the name are.
pub proof fn law_aggregate_read(e: Expr, f: Function, arg: Expr, distinct: bool)
    requires
        e == Expr::Function(f),
        f.args is List,
        f.args->distinct == distinct,
        f.args->args@ == seq![FunctionArg::Expr(arg)],
    ensures
        uppercased(f.name@) == "COUNT"@ ==> yields(
            classified(e),
            if distinct {
                SelectItemKind::CountDistinct(arg)
            } else {
                SelectItemKind::Count(arg)
            },
        ),
        uppercased(f.name@) == "SUM"@ && !distinct ==> yields(
            classified(e),
            SelectItemKind::Sum(arg),
        ),
        uppercased(f.name@) == "AVG"@ && !distinct ==> yields(
            classified(e),
            SelectItemKind::Avg(arg),
        ),
        uppercased(f.name@) == "MIN"@ && !distinct ==> yields(
            classified(e),
            SelectItemKind::Min(arg),
        ),
        uppercased(f.name@) == "MAX"@ && !distinct ==> yields(
            classified(e),
            SelectItemKind::Max(arg),
        ),
        distinct && (uppercased(f.name@) == "SUM"@ || uppercased(f.name@) == "AVG"@ || uppercased(
            f.name@,
        ) == "MIN"@ || uppercased(f.name@) == "MAX"@) ==> classified(e) is Err,
        uppercased(f.name@) != "COUNT"@ && uppercased(f.name@) != "SUM"@ && uppercased(f.name@)
            != "AVG"@ && uppercased(f.name@) != "MIN"@ && uppercased(f.name@) != "MAX"@ ==> yields(
            classified(e),
            SelectItemKind::Other(e),
        ),
{
    lemma_aggregate_names();
    let v = f.args->args@;
    assert(v[0] == FunctionArg::Expr(arg));
    assert(!has_wildcard(f.args));
}

/// A count of `*`, or of nothing, counts rows.
pub proof fn law_count_all_read(e: Expr, f: Function)
    requires
        e == Expr::Function(f),
        uppercased(f.name@) == "COUNT"@,
        f.args is List,
        !f.args->distinct,
        f.args->args@.len() <= 1,
        f.args->args@.len() == 1 ==> f.args->args@[0] is Wildcard,
    ensures
        yields(classified(e), SelectItemKind::CountAll),
{
    lemma_aggregate_names();
}

/// The table of a query is the one that its first source names, with points between the
/// parts of a name.
pub proof fn law_table_read(
    query: Tree,
    select: Tree,
    q: ParsedQuery,
    from: Seq<Tree>,
    rel: Tree,
    parts: Seq<Tree>,
    part: Tree,
    s: Seq<char>,
)
    requires
        reads_query(query, select, q),
        entry(select, "from"@, Tree::List(from)),
        from.len() > 0,
        entry(from[0], "relation"@, variant("Table"@, rel)),
        entry(rel, "name"@, Tree::List(parts)),
        entry(part, "value"@, Tree::Text(s)),
        entry(part, "quote_style"@, Tree::Null),
    ensures
        parts == seq![part] ==> q.from_table@ == s,
        parts.len() > 1 && parts.last() == part ==> q.from_table@ == name_display(
            Tree::List(parts.drop_last()),
        ) + seq!['.'] + s,
{
    law_entry_found(select, "from"@, Tree::List(from));
    law_entry_found(from[0], "relation"@, variant("Table"@, rel));
    law_entry_found(rel, "name"@, Tree::List(parts));
    law_entry_found(part, "value"@, Tree::Text(s));
    law_entry_found(part, "quote_style"@, Tree::Null);
    reveal_strlit(".");
    assert("."@ =~= seq!['.']);
    assert(ident_display(part) == s);
    if parts == seq![part] {
        assert(name_prefix(parts, 1) == s);
    }
    if parts.len() > 1 && parts.last() == part {
        lemma_name_front(parts, parts.drop_last(), parts.len() - 1);
    }
}

/// The first parts of a name are what they are, whatever follows.
proof fn lemma_name_front(a: Seq<Tree>, b: Seq<Tree>, n: int)
    requires
        0 <= n <= a.len(),
        n <= b.len(),
        forall|i: int| 0 <= i < n ==> a[i] == b[i],
    ensures
        name_prefix(a, n) == name_prefix(b, n),
    decreases n,
{
    if n > 1 {
        lemma_name_front(a, b, n - 1);
        assert(a[n - 1] == b[n - 1]);
    } else if n == 1 {
        assert(a[0] == b[0]);
    }
}

} // verus!
