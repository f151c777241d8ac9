//! From syntax trees to expressions.
use crate::sql::ast::{
    BinaryOperator, DateTimeField, Expr, Function, FunctionArg, FunctionArguments, Literal,
    UnaryOperator,
};
use crate::sql::tree::{
    field, get_bool, get_field, get_list, get_payload, get_text, has_tag, is_unit, payload, Json,
    Tree,
};
use crate::text::texts;
use vstd::prelude::*;

verus! {

/// How an identifier in quotes is displayed.
pub uninterp spec fn quoted_ident(value: Seq<char>, quote: char) -> Seq<char>;

/// The display form of `sqlparser::ast::Ident::with_quote`: it depends on the
/// identifier and the quote alone and is called `quoted_ident`.
#[verifier::external_body]
fn show_quoted(value: &str, quote: char) -> (s: String)
    requires
        is_quote(quote),
    ensures
        s@ == quoted_ident(value@, quote),
{
    sqlparser::ast::Ident::with_quote(quote, value).to_string()
}

/// The characters that can open a quoted identifier.
pub open spec fn is_quote(c: char) -> bool {
    c == '"' || c == '\'' || c == '`' || c == '['
}

/// The value of an identifier node, without quotes.
pub open spec fn ident_value(t: Tree) -> Seq<char> {
    match field(t, "value"@) {
        Some(Tree::Text(s)) => s,
        _ => Seq::empty(),
    }
}

/// The display form of an identifier node.
pub open spec fn ident_display(t: Tree) -> Seq<char> {
    match field(t, "quote_style"@) {
        Some(Tree::Text(q)) => if q.len() == 1 && is_quote(q[0]) {
            quoted_ident(ident_value(t), q[0])
        } else {
            ident_value(t)
        },
        _ => ident_value(t),
    }
}

/// The display form of the first `n` parts of a name, with dots between them.
pub open spec fn name_prefix(parts: Seq<Tree>, n: int) -> Seq<char>
    decreases n,
{
    if n <= 0 {
        Seq::empty()
    } else if n == 1 {
        ident_display(parts[0])
    } else {
        name_prefix(parts, n - 1) + "."@ + ident_display(parts[n - 1])
    }
}

/// The display form of a name node.
pub open spec fn name_display(t: Tree) -> Seq<char> {
    match t {
        Tree::List(parts) => name_prefix(parts, parts.len() as int),
        _ => Seq::empty(),
    }
}

/// Reads the value of an identifier node.
pub fn read_ident(j: &Json) -> (s: String)
    ensures
        s@ == ident_value(j.tree()),
{
    match get_field(j, "value") {
        Some(v) => match get_text(v) {
            Some(s) => String::from_str(s),
            None => String::new(),
        },
        None => String::new(),
    }
}

fn display_ident(j: &Json) -> (s: String)
    ensures
        s@ == ident_display(j.tree()),
{
    let value = read_ident(j);
    match get_field(j, "quote_style") {
        Some(v) => match get_text(v) {
            Some(q) => {
                let chars = crate::text::str_chars(q);
                if chars.len() == 1 && (chars[0] == '"' || chars[0] == '\'' || chars[0] == '`'
                    || chars[0] == '[') {
                    show_quoted(value.as_str(), chars[0])
                } else {
                    value
                }
            },
            None => value,
        },
        None => value,
    }
}

/// Displays a name node.
pub fn display_name(j: &Json) -> (s: String)
    ensures
        s@ == name_display(j.tree()),
{
    match get_list(j) {
        None => String::new(),
        Some(parts) => {
            let ghost trees = j.tree()->List_0;
            let mut s = String::new();
            let mut i: usize = 0;
            while i < parts.len()
                invariant
                    i <= parts@.len(),
                    trees.len() == parts@.len(),
                    forall|k: int| 0 <= k < parts@.len() ==> #[trigger] trees[k] == parts@[k].tree(),
                    s@ == name_prefix(trees, i as int),
                decreases parts@.len() - i,
            {
                assert(trees[i as int] == parts@[i as int].tree());
                if i > 0 {
                    s.append(".");
                }
                s.append(display_ident(&parts[i]).as_str());
                assert(s@ =~= name_prefix(trees, i + 1));
                i = i + 1;
            }
            s
        },
    }
}

/// Whether a literal is what a literal node says.
pub open spec fn reads_value(t: Tree, v: Literal) -> bool {
    match v {
        Literal::Number(s) => number_of(t) == Some(s@),
        Literal::SingleQuotedString(s) => payload(t, "SingleQuotedString"@) == Some(Tree::Text(s@)),
        Literal::DoubleQuotedString(s) => payload(t, "DoubleQuotedString"@) == Some(Tree::Text(s@)),
        Literal::EscapedStringLiteral(s) => payload(t, "EscapedStringLiteral"@) == Some(
            Tree::Text(s@),
        ),
        Literal::Boolean(b) => payload(t, "Boolean"@) == Some(Tree::Bool(b)),
        Literal::Other => {
            &&& number_of(t) is None
            &&& !(payload(t, "SingleQuotedString"@) matches Some(Tree::Text(_)))
            &&& !(payload(t, "DoubleQuotedString"@) matches Some(Tree::Text(_)))
            &&& !(payload(t, "EscapedStringLiteral"@) matches Some(Tree::Text(_)))
            &&& !(payload(t, "Boolean"@) matches Some(Tree::Bool(_)))
        },
    }
}

/// The numeral of a number literal.
pub open spec fn number_of(t: Tree) -> Option<Seq<char>> {
    match payload(t, "Number"@) {
        Some(Tree::List(l)) => if l.len() > 0 {
            match l[0] {
                Tree::Text(s) => Some(s),
                _ => None,
            }
        } else {
            None
        },
        _ => None,
    }
}

/// Reads the numeral of a number literal.
pub fn read_number(j: &Json) -> (r: Option<String>)
    ensures
        match r {
            Some(s) => number_of(j.tree()) == Some(s@),
            None => number_of(j.tree()) is None,
        },
{
    match get_payload(j, "Number") {
        Some(p) => match get_list(p) {
            Some(l) => {
                if l.len() > 0 {
                    assert(p.tree()->List_0[0] == l@[0].tree());
                    match get_text(&l[0]) {
                        Some(s) => Some(String::from_str(s)),
                        None => None,
                    }
                } else {
                    None
                }
            },
            None => None,
        },
        None => None,
    }
}

fn text_payload(j: &Json, tag: &str) -> (r: Option<String>)
    ensures
        match r {
            Some(s) => payload(j.tree(), tag@) == Some(Tree::Text(s@)),
            None => !(payload(j.tree(), tag@) matches Some(Tree::Text(_))),
        },
{
    match get_payload(j, tag) {
        Some(p) => match get_text(p) {
            Some(s) => Some(String::from_str(s)),
            None => None,
        },
        None => None,
    }
}

/// Reads a literal.
pub fn read_value(j: &Json) -> (v: Literal)
    ensures
        reads_value(j.tree(), v),
{
    if let Some(s) = read_number(j) {
        return Literal::Number(s);
    }
    if let Some(s) = text_payload(j, "SingleQuotedString") {
        return Literal::SingleQuotedString(s);
    }
    if let Some(s) = text_payload(j, "DoubleQuotedString") {
        return Literal::DoubleQuotedString(s);
    }
    if let Some(s) = text_payload(j, "EscapedStringLiteral") {
        return Literal::EscapedStringLiteral(s);
    }
    if let Some(p) = get_payload(j, "Boolean") {
        if let Some(b) = get_bool(p) {
            return Literal::Boolean(b);
        }
    }
    Literal::Other
}

/// Whether an operator is what an operator node says.
pub open spec fn reads_binary(t: Tree, op: BinaryOperator) -> bool {
    match op {
        BinaryOperator::Plus => is_unit(t, "Plus"@),
        BinaryOperator::Minus => is_unit(t, "Minus"@),
        BinaryOperator::Multiply => is_unit(t, "Multiply"@),
        BinaryOperator::Divide => is_unit(t, "Divide"@),
        BinaryOperator::Gt => is_unit(t, "Gt"@),
        BinaryOperator::Lt => is_unit(t, "Lt"@),
        BinaryOperator::GtEq => is_unit(t, "GtEq"@),
        BinaryOperator::LtEq => is_unit(t, "LtEq"@),
        BinaryOperator::Eq => is_unit(t, "Eq"@),
        BinaryOperator::NotEq => is_unit(t, "NotEq"@),
        BinaryOperator::And => is_unit(t, "And"@),
        BinaryOperator::Or => is_unit(t, "Or"@),
        BinaryOperator::Other => {
            &&& !is_unit(t, "Plus"@) && !is_unit(t, "Minus"@)
            &&& !is_unit(t, "Multiply"@) && !is_unit(t, "Divide"@)
            &&& !is_unit(t, "Gt"@) && !is_unit(t, "Lt"@)
            &&& !is_unit(t, "GtEq"@) && !is_unit(t, "LtEq"@)
            &&& !is_unit(t, "Eq"@) && !is_unit(t, "NotEq"@)
            &&& !is_unit(t, "And"@) && !is_unit(t, "Or"@)
        },
    }
}

fn read_binary(j: &Json) -> (op: BinaryOperator)
    ensures
        reads_binary(j.tree(), op),
{
    if has_tag(j, "Plus") {
        BinaryOperator::Plus
    } else if has_tag(j, "Minus") {
        BinaryOperator::Minus
    } else if has_tag(j, "Multiply") {
        BinaryOperator::Multiply
    } else if has_tag(j, "Divide") {
        BinaryOperator::Divide
    } else if has_tag(j, "Gt") {
        BinaryOperator::Gt
    } else if has_tag(j, "Lt") {
        BinaryOperator::Lt
    } else if has_tag(j, "GtEq") {
        BinaryOperator::GtEq
    } else if has_tag(j, "LtEq") {
        BinaryOperator::LtEq
    } else if has_tag(j, "Eq") {
        BinaryOperator::Eq
    } else if has_tag(j, "NotEq") {
        BinaryOperator::NotEq
    } else if has_tag(j, "And") {
        BinaryOperator::And
    } else if has_tag(j, "Or") {
        BinaryOperator::Or
    } else {
        BinaryOperator::Other
    }
}

/// Whether an operator is what an operator node says.
pub open spec fn reads_unary(t: Tree, op: UnaryOperator) -> bool {
    match op {
        UnaryOperator::Minus => is_unit(t, "Minus"@),
        UnaryOperator::Not => is_unit(t, "Not"@),
        UnaryOperator::Other => !is_unit(t, "Minus"@) && !is_unit(t, "Not"@),
    }
}

fn read_unary(j: &Json) -> (op: UnaryOperator)
    ensures
        reads_unary(j.tree(), op),
{
    if has_tag(j, "Minus") {
        UnaryOperator::Minus
    } else if has_tag(j, "Not") {
        UnaryOperator::Not
    } else {
        UnaryOperator::Other
    }
}

/// Whether a part of a time is what a node says.
pub open spec fn reads_field(t: Tree, f: DateTimeField) -> bool {
    match f {
        DateTimeField::Minute => is_unit(t, "Minute"@),
        DateTimeField::Hour => is_unit(t, "Hour"@),
        DateTimeField::Day => is_unit(t, "Day"@),
        DateTimeField::Month => is_unit(t, "Month"@),
        DateTimeField::Year => is_unit(t, "Year"@),
        DateTimeField::Other => {
            &&& !is_unit(t, "Minute"@) && !is_unit(t, "Hour"@)
            &&& !is_unit(t, "Day"@) && !is_unit(t, "Month"@) && !is_unit(t, "Year"@)
        },
    }
}

fn read_field(j: &Json) -> (f: DateTimeField)
    ensures
        reads_field(j.tree(), f),
{
    if has_tag(j, "Minute") {
        DateTimeField::Minute
    } else if has_tag(j, "Hour") {
        DateTimeField::Hour
    } else if has_tag(j, "Day") {
        DateTimeField::Day
    } else if has_tag(j, "Month") {
        DateTimeField::Month
    } else if has_tag(j, "Year") {
        DateTimeField::Year
    } else {
        DateTimeField::Other
    }
}

fn read_flag(j: &Json, key: &str) -> (b: bool)
    ensures
        b == (field(j.tree(), key@) == Some(Tree::Bool(true))),
{
    match get_field(j, key) {
        Some(v) => match get_bool(v) {
            Some(b) => b,
            None => false,
        },
        None => false,
    }
}

/// A field of a variant's node.
pub open spec fn part(t: Tree, tag: Seq<char>, key: Seq<char>) -> Option<Tree> {
    match payload(t, tag) {
        Some(p) => field(p, key),
        None => None,
    }
}

/// Whether a field of a variant's node is a list.
pub open spec fn has_list(t: Tree, tag: Seq<char>, key: Seq<char>) -> bool {
    part(t, tag, key) matches Some(Tree::List(_))
}

/// The list in a field of a variant's node.
pub open spec fn list_part(t: Tree, tag: Seq<char>, key: Seq<char>) -> Seq<Tree> {
    part(t, tag, key)->Some_0->List_0
}

/// Whether an optional field is left out.
pub open spec fn absent(t: Option<Tree>) -> bool {
    t is None || t == Some(Tree::Null)
}

/// Whether a node is an expression of a kind that the engine looks into, with
/// the parts that it needs.
pub open spec fn node_ok(t: Tree) -> bool {
    ||| payload(t, "Identifier"@) is Some
    ||| payload(t, "CompoundIdentifier"@) matches Some(Tree::List(_))
    ||| payload(t, "Value"@) is Some
    ||| part(t, "BinaryOp"@, "left"@) is Some && part(t, "BinaryOp"@, "op"@) is Some && part(
        t,
        "BinaryOp"@,
        "right"@,
    ) is Some
    ||| part(t, "UnaryOp"@, "op"@) is Some && part(t, "UnaryOp"@, "expr"@) is Some
    ||| payload(t, "Nested"@) is Some
    ||| part(t, "Cast"@, "expr"@) is Some
    ||| part(t, "Like"@, "expr"@) is Some && part(t, "Like"@, "pattern"@) is Some
    ||| part(t, "ILike"@, "expr"@) is Some && part(t, "ILike"@, "pattern"@) is Some
    ||| part(t, "InList"@, "expr"@) is Some && has_list(t, "InList"@, "list"@)
    ||| part(t, "Function"@, "name"@) is Some && part(t, "Function"@, "args"@) is Some
    ||| has_list(t, "Case"@, "conditions"@) && has_list(t, "Case"@, "results"@)
    ||| part(t, "Extract"@, "field"@) is Some && part(t, "Extract"@, "expr"@) is Some
    ||| payload(t, "IsNull"@) is Some
}

/// Whether an expression is what an expression node says.
pub open spec fn reads_expr(t: Tree, e: Expr) -> bool
    decreases e,
{
    match e {
        Expr::Identifier(s) => {
            &&& payload(t, "Identifier"@) is Some
            &&& s@ == ident_value(payload(t, "Identifier"@)->Some_0)
        },
        Expr::CompoundIdentifier(v) => {
            &&& payload(t, "CompoundIdentifier"@) matches Some(Tree::List(_))
            &&& texts(v@) == payload(t, "CompoundIdentifier"@)->Some_0->List_0.map_values(
                |x: Tree| ident_value(x),
            )
        },
        Expr::Value(v) => {
            &&& payload(t, "Value"@) is Some
            &&& reads_value(payload(t, "Value"@)->Some_0, v)
        },
        Expr::BinaryOp { left, op, right } => {
            &&& part(t, "BinaryOp"@, "left"@) is Some
            &&& reads_expr(part(t, "BinaryOp"@, "left"@)->Some_0, *left)
            &&& part(t, "BinaryOp"@, "op"@) is Some
            &&& reads_binary(part(t, "BinaryOp"@, "op"@)->Some_0, op)
            &&& part(t, "BinaryOp"@, "right"@) is Some
            &&& reads_expr(part(t, "BinaryOp"@, "right"@)->Some_0, *right)
        },
        Expr::UnaryOp { op, expr } => {
            &&& part(t, "UnaryOp"@, "op"@) is Some
            &&& reads_unary(part(t, "UnaryOp"@, "op"@)->Some_0, op)
            &&& part(t, "UnaryOp"@, "expr"@) is Some
            &&& reads_expr(part(t, "UnaryOp"@, "expr"@)->Some_0, *expr)
        },
        Expr::Nested(x) => {
            &&& payload(t, "Nested"@) is Some
            &&& reads_expr(payload(t, "Nested"@)->Some_0, *x)
        },
        Expr::Cast { expr } => {
            &&& part(t, "Cast"@, "expr"@) is Some
            &&& reads_expr(part(t, "Cast"@, "expr"@)->Some_0, *expr)
        },
        Expr::Like { negated, expr, pattern } => {
            &&& part(t, "Like"@, "expr"@) is Some
            &&& reads_expr(part(t, "Like"@, "expr"@)->Some_0, *expr)
            &&& part(t, "Like"@, "pattern"@) is Some
            &&& reads_expr(part(t, "Like"@, "pattern"@)->Some_0, *pattern)
            &&& negated == (part(t, "Like"@, "negated"@) == Some(Tree::Bool(true)))
        },
        Expr::ILike { negated, expr, pattern } => {
            &&& part(t, "ILike"@, "expr"@) is Some
            &&& reads_expr(part(t, "ILike"@, "expr"@)->Some_0, *expr)
            &&& part(t, "ILike"@, "pattern"@) is Some
            &&& reads_expr(part(t, "ILike"@, "pattern"@)->Some_0, *pattern)
            &&& negated == (part(t, "ILike"@, "negated"@) == Some(Tree::Bool(true)))
        },
        Expr::InList { expr, list, negated } => {
            &&& part(t, "InList"@, "expr"@) is Some
            &&& reads_expr(part(t, "InList"@, "expr"@)->Some_0, *expr)
            &&& has_list(t, "InList"@, "list"@)
            &&& list_part(t, "InList"@, "list"@).len() == list@.len()
            &&& forall|i: int|
                0 <= i < list@.len() ==> reads_expr(list_part(t, "InList"@, "list"@)[i], #[trigger] list@[i])
            &&& negated == (part(t, "InList"@, "negated"@) == Some(Tree::Bool(true)))
        },
        Expr::Function(f) => {
            &&& part(t, "Function"@, "name"@) is Some
            &&& f.name@ == name_display(part(t, "Function"@, "name"@)->Some_0)
            &&& part(t, "Function"@, "args"@) is Some
            &&& reads_args(part(t, "Function"@, "args"@)->Some_0, f.args)
        },
        Expr::Case { operand, conditions, results, else_result } => {
            &&& match operand {
                Some(x) => {
                    &&& !absent(part(t, "Case"@, "operand"@))
                    &&& reads_expr(part(t, "Case"@, "operand"@)->Some_0, *x)
                },
                None => absent(part(t, "Case"@, "operand"@)),
            }
            &&& has_list(t, "Case"@, "conditions"@)
            &&& list_part(t, "Case"@, "conditions"@).len() == conditions@.len()
            &&& forall|i: int|
                0 <= i < conditions@.len() ==> reads_expr(list_part(t, "Case"@, "conditions"@)[i], #[trigger] conditions@[i])
            &&& has_list(t, "Case"@, "results"@)
            &&& list_part(t, "Case"@, "results"@).len() == results@.len()
            &&& forall|i: int|
                0 <= i < results@.len() ==> reads_expr(list_part(t, "Case"@, "results"@)[i], #[trigger] results@[i])
            &&& match else_result {
                Some(x) => {
                    &&& !absent(part(t, "Case"@, "else_result"@))
                    &&& reads_expr(part(t, "Case"@, "else_result"@)->Some_0, *x)
                },
                None => absent(part(t, "Case"@, "else_result"@)),
            }
        },
        Expr::Extract { field: f, expr } => {
            &&& part(t, "Extract"@, "field"@) is Some
            &&& reads_field(part(t, "Extract"@, "field"@)->Some_0, f)
            &&& part(t, "Extract"@, "expr"@) is Some
            &&& reads_expr(part(t, "Extract"@, "expr"@)->Some_0, *expr)
        },
        Expr::IsNull(x) => {
            &&& payload(t, "IsNull"@) is Some
            &&& reads_expr(payload(t, "IsNull"@)->Some_0, *x)
        },
        Expr::Other => !node_ok(t),
    }
}

/// Whether the arguments of a function are what a node says.
pub open spec fn reads_args(t: Tree, a: FunctionArguments) -> bool
    decreases a,
{
    match a {
        FunctionArguments::Absent => is_unit(t, "None"@),
        FunctionArguments::List { distinct, args } => {
            &&& has_list(t, "List"@, "args"@)
            &&& list_part(t, "List"@, "args"@).len() == args@.len()
            &&& forall|i: int|
                0 <= i < args@.len() ==> reads_arg(list_part(t, "List"@, "args"@)[i], #[trigger] args@[i])
            &&& distinct == (part(t, "List"@, "duplicate_treatment"@) == Some(
                Tree::Text("Distinct"@),
            ))
        },
        FunctionArguments::Subquery => !is_unit(t, "None"@) && !has_list(t, "List"@, "args"@),
    }
}

/// Whether one argument of a function is what a node says.
pub open spec fn reads_arg(t: Tree, a: FunctionArg) -> bool
    decreases a,
{
    match a {
        FunctionArg::Expr(e) => {
            &&& payload(t, "Unnamed"@) is Some
            &&& payload(payload(t, "Unnamed"@)->Some_0, "Expr"@) is Some
            &&& reads_expr(payload(payload(t, "Unnamed"@)->Some_0, "Expr"@)->Some_0, e)
        },
        FunctionArg::Wildcard => payload(t, "Unnamed"@) == Some(Tree::Text("Wildcard"@)),
        FunctionArg::Other => {
            ||| payload(t, "Unnamed"@) is None
            ||| payload(t, "Unnamed"@)->Some_0 != Tree::Text("Wildcard"@) && payload(
                payload(t, "Unnamed"@)->Some_0,
                "Expr"@,
            ) is None
        },
    }
}

/// Reads a list of expressions.
pub fn read_exprs(l: &Vec<Json>) -> (v: Vec<Expr>)
    ensures
        v@.len() == l@.len(),
        forall|i: int| 0 <= i < v@.len() ==> #[trigger] reads_expr(l@[i].tree(), v@[i]),
    decreases l@,
{
    let mut v: Vec<Expr> = Vec::new();
    let mut i: usize = 0;
    while i < l.len()
        invariant
            i <= l@.len(),
            v@.len() == i,
            forall|k: int| 0 <= k < i ==> #[trigger] reads_expr(l@[k].tree(), v@[k]),
        decreases l@.len() - i,
    {
        assert(decreases_to!(l@ => l@[i as int]));
        let e = read_expr(&l[i]);
        v.push(e);
        i = i + 1;
    }
    v
}

fn read_arg(j: &Json) -> (a: FunctionArg)
    ensures
        reads_arg(j.tree(), a),
    decreases *j,
{
    match get_payload(j, "Unnamed") {
        None => FunctionArg::Other,
        Some(p) => {
            if has_tag(p, "Wildcard") {
                return FunctionArg::Wildcard;
            }
            match get_payload(p, "Expr") {
                Some(x) => FunctionArg::Expr(read_expr(x)),
                None => FunctionArg::Other,
            }
        },
    }
}

fn read_args(j: &Json) -> (a: FunctionArguments)
    ensures
        reads_args(j.tree(), a),
    decreases *j,
{
    if has_tag(j, "None") {
        return FunctionArguments::Absent;
    }
    match get_payload(j, "List") {
        None => FunctionArguments::Subquery,
        Some(p) => {
            let distinct = match get_field(p, "duplicate_treatment") {
                Some(d) => has_tag(d, "Distinct"),
                None => false,
            };
            match get_field(p, "args") {
                None => FunctionArguments::Subquery,
                Some(l) => match get_list(l) {
                    None => FunctionArguments::Subquery,
                    Some(items) => {
                        let mut args: Vec<FunctionArg> = Vec::new();
                        let mut i: usize = 0;
                        while i < items.len()
                            invariant
                                decreases_to!(*j => items@),
                                i <= items@.len(),
                                args@.len() == i,
                                forall|k: int|
                                    0 <= k < i ==> #[trigger] reads_arg(
                                        items@[k].tree(),
                                        args@[k],
                                    ),
                            decreases items@.len() - i,
                        {
                            assert(decreases_to!(items@ => items@[i as int]));
                            let a = read_arg(&items[i]);
                            args.push(a);
                            i = i + 1;
                        }
                        proof {
                            let trees = list_part(j.tree(), "List"@, "args"@);
                            assert(trees == l.tree()->List_0);
                            assert forall|k: int| 0 <= k < args@.len() implies reads_arg(
                                trees[k],
                                #[trigger] args@[k],
                            ) by {
                                assert(l.tree()->List_0[k] == items@[k].tree());
                                assert(reads_arg(items@[k].tree(), args@[k]));
                            }
                        }
                        FunctionArguments::List { distinct, args }
                    },
                },
            }
        },
    }
}

/// Reads an expression.
pub fn read_expr(j: &Json) -> (e: Expr)
    ensures
        reads_expr(j.tree(), e),
    decreases *j,
{
    if let Some(p) = get_payload(j, "Identifier") {
        return Expr::Identifier(read_ident(p));
    }
    if let Some(p) = get_payload(j, "CompoundIdentifier") {
        if let Some(l) = get_list(p) {
            let mut v: Vec<String> = Vec::new();
            let ghost trees = p.tree()->List_0;
            let mut i: usize = 0;
            while i < l.len()
                invariant
                    i <= l@.len(),
                    trees.len() == l@.len(),
                    forall|k: int| 0 <= k < l@.len() ==> #[trigger] trees[k] == l@[k].tree(),
                    v@.len() == i,
                    forall|k: int| 0 <= k < i ==> (#[trigger] v@[k])@ == ident_value(trees[k]),
                decreases l@.len() - i,
            {
                assert(trees[i as int] == l@[i as int].tree());
                v.push(read_ident(&l[i]));
                i = i + 1;
            }
            assert(texts(v@) =~= trees.map_values(|x: Tree| ident_value(x)));
            return Expr::CompoundIdentifier(v);
        }
    }
    if let Some(p) = get_payload(j, "Value") {
        return Expr::Value(read_value(p));
    }
    if let Some(p) = get_payload(j, "BinaryOp") {
        if let (Some(l), Some(o), Some(r)) = (
            get_field(p, "left"),
            get_field(p, "op"),
            get_field(p, "right"),
        ) {
            let left = Box::new(read_expr(l));
            let right = Box::new(read_expr(r));
            return Expr::BinaryOp { left, op: read_binary(o), right };
        }
    }
    if let Some(p) = get_payload(j, "UnaryOp") {
        if let (Some(o), Some(x)) = (get_field(p, "op"), get_field(p, "expr")) {
            let expr = Box::new(read_expr(x));
            return Expr::UnaryOp { op: read_unary(o), expr };
        }
    }
    if let Some(p) = get_payload(j, "Nested") {
        return Expr::Nested(Box::new(read_expr(p)));
    }
    if let Some(p) = get_payload(j, "Cast") {
        if let Some(x) = get_field(p, "expr") {
            return Expr::Cast { expr: Box::new(read_expr(x)) };
        }
    }
    if let Some(p) = get_payload(j, "Like") {
        if let (Some(x), Some(y)) = (get_field(p, "expr"), get_field(p, "pattern")) {
            let expr = Box::new(read_expr(x));
            let pattern = Box::new(read_expr(y));
            return Expr::Like { negated: read_flag(p, "negated"), expr, pattern };
        }
    }
    if let Some(p) = get_payload(j, "ILike") {
        if let (Some(x), Some(y)) = (get_field(p, "expr"), get_field(p, "pattern")) {
            let expr = Box::new(read_expr(x));
            let pattern = Box::new(read_expr(y));
            return Expr::ILike { negated: read_flag(p, "negated"), expr, pattern };
        }
    }
    if let Some(p) = get_payload(j, "InList") {
        if let (Some(x), Some(y)) = (get_field(p, "expr"), get_field(p, "list")) {
            if let Some(l) = get_list(y) {
                let expr = Box::new(read_expr(x));
                let list = read_exprs(l);
                proof {
                    lemma_list_reads(y.tree(), l@, list@);
                    assert(list_part(j.tree(), "InList"@, "list"@) == y.tree()->List_0);
                }
                return Expr::InList { expr, list, negated: read_flag(p, "negated") };
            }
        }
    }
    if let Some(p) = get_payload(j, "Function") {
        if let (Some(n), Some(a)) = (get_field(p, "name"), get_field(p, "args")) {
            let name = display_name(n);
            let args = read_args(a);
            return Expr::Function(Function { name, args });
        }
    }
    if let Some(p) = get_payload(j, "Case") {
        if let (Some(c), Some(r)) = (get_field(p, "conditions"), get_field(p, "results")) {
            if let (Some(cl), Some(rl)) = (get_list(c), get_list(r)) {
                let operand = match get_field(p, "operand") {
                    Some(x) => match x {
                        Json::Null => None,
                        _ => Some(Box::new(read_expr(x))),
                    },
                    None => None,
                };
                let else_result = match get_field(p, "else_result") {
                    Some(x) => match x {
                        Json::Null => None,
                        _ => Some(Box::new(read_expr(x))),
                    },
                    None => None,
                };
                let conditions = read_exprs(cl);
                let results = read_exprs(rl);
                proof {
                    lemma_list_reads(c.tree(), cl@, conditions@);
                    lemma_list_reads(r.tree(), rl@, results@);
                    assert(list_part(j.tree(), "Case"@, "conditions"@) == c.tree()->List_0);
                    assert(list_part(j.tree(), "Case"@, "results"@) == r.tree()->List_0);
                }
                return Expr::Case { operand, conditions, results, else_result };
            }
        }
    }
    if let Some(p) = get_payload(j, "Extract") {
        if let (Some(f), Some(x)) = (get_field(p, "field"), get_field(p, "expr")) {
            let expr = Box::new(read_expr(x));
            return Expr::Extract { field: read_field(f), expr };
        }
    }
    if let Some(p) = get_payload(j, "IsNull") {
        return Expr::IsNull(Box::new(read_expr(p)));
    }
    Expr::Other
}

proof fn lemma_list_reads(t: Tree, l: Seq<Json>, v: Seq<Expr>)
    requires
        t is List,
        t->List_0.len() == l.len(),
        l.len() == v.len(),
        forall|i: int| 0 <= i < l.len() ==> #[trigger] t->List_0[i] == l[i].tree(),
        forall|i: int| 0 <= i < v.len() ==> #[trigger] reads_expr(l[i].tree(), v[i]),
    ensures
        forall|i: int| 0 <= i < v.len() ==> reads_expr(t->List_0[i], #[trigger] v[i]),
{
    assert forall|i: int| 0 <= i < v.len() implies reads_expr(t->List_0[i], #[trigger] v[i]) by {
        assert(reads_expr(l[i].tree(), v[i]));
    }
}

} // verus!
