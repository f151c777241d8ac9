//! From a syntax tree to a query.
use crate::error::{fails, outcome, yields, Error};
use crate::sql::ast::{
    Expr, Function, FunctionArg, FunctionArguments, ParsedQuery, SelectItemKind, SelectProjection,
};
use crate::sql::read::{
    absent, display_name, ident_value, name_display, number_of, part, read_expr, read_exprs,
    read_ident, read_number, reads_expr,
};
use crate::sql::tree::{
    field, get_bool, get_field, get_list, get_payload, parse_statements, payload, statements_of, Json,
    Tree,
};
use crate::text::{join3, parse_u64, parsed_u64, str_eq, to_uppercase, uppercased};
use vstd::prelude::*;

verus! {

/// The column that an expression names.
pub open spec fn column_name(e: Expr) -> Option<Seq<char>> {
    match e {
        Expr::Identifier(s) => Some(s@),
        Expr::CompoundIdentifier(parts) => if parts@.len() > 0 {
            Some(parts@[parts@.len() - 1]@)
        } else {
            None
        },
        _ => None,
    }
}

/// The column that an expression names, borrowed from it.
pub fn column_ref(expr: &Expr) -> (r: Option<&str>)
    ensures
        match r {
            Some(s) => column_name(*expr) == Some(s@),
            None => column_name(*expr) is None,
        },
{
    match expr {
        Expr::Identifier(s) => Some(s.as_str()),
        Expr::CompoundIdentifier(parts) => if parts.len() > 0 {
            Some(parts[parts.len() - 1].as_str())
        } else {
            None
        },
        _ => None,
    }
}

/// The column that an expression names.
pub fn expr_column_name(expr: &Expr) -> (r: Option<String>)
    ensures
        match r {
            Some(s) => column_name(*expr) == Some(s@),
            None => column_name(*expr) is None,
        },
{
    match column_ref(expr) {
        Some(s) => Some(String::from_str(s)),
        None => None,
    }
}

/// Whether a function name is that of an aggregate.
pub open spec fn is_aggregate(name: Seq<char>) -> bool {
    name == "COUNT"@ || name == "SUM"@ || name == "AVG"@ || name == "MIN"@ || name == "MAX"@
}

/// The first of a function's arguments, where it is a plain expression.
pub open spec fn first_arg(args: FunctionArguments) -> Option<Expr> {
    match args {
        FunctionArguments::List { args, .. } => if args@.len() > 0 {
            match args@[0] {
                FunctionArg::Expr(e) => Some(e),
                _ => None,
            }
        } else {
            None
        },
        _ => None,
    }
}

/// Whether `*` is among a function's arguments.
pub open spec fn has_wildcard(args: FunctionArguments) -> bool {
    match args {
        FunctionArguments::List { args, .. } => exists|i: int|
            0 <= i < args@.len() && (#[trigger] args@[i]) is Wildcard,
        _ => false,
    }
}

/// Whether a function is called without arguments.
pub open spec fn no_args(args: FunctionArguments) -> bool {
    match args {
        FunctionArguments::List { args, .. } => args@.len() == 0,
        FunctionArguments::Absent => true,
        FunctionArguments::Subquery => false,
    }
}

/// Whether a function is called with `DISTINCT`.
pub open spec fn is_distinct(args: FunctionArguments) -> bool {
    args matches FunctionArguments::List { distinct, .. } && distinct
}

/// The projection that an aggregate call stands for.
pub open spec fn aggregate_kind(name: Seq<char>, args: FunctionArguments) -> Result<
    SelectItemKind,
    Seq<char>,
> {
    let distinct = is_distinct(args);
    let arg = first_arg(args);
    if args is Subquery {
        Err("unsupported function args"@)
    } else if name == "COUNT"@ && !distinct && has_wildcard(args) {
        Ok(SelectItemKind::CountAll)
    } else if name == "COUNT"@ && !distinct && no_args(args) {
        Ok(SelectItemKind::CountAll)
    } else if name == "COUNT"@ && arg is Some {
        if distinct {
            Ok(SelectItemKind::CountDistinct(arg->Some_0))
        } else {
            Ok(SelectItemKind::Count(arg->Some_0))
        }
    } else if name == "SUM"@ && !distinct && arg is Some {
        Ok(SelectItemKind::Sum(arg->Some_0))
    } else if name == "AVG"@ && !distinct && arg is Some {
        Ok(SelectItemKind::Avg(arg->Some_0))
    } else if name == "MIN"@ && !distinct && arg is Some {
        Ok(SelectItemKind::Min(arg->Some_0))
    } else if name == "MAX"@ && !distinct && arg is Some {
        Ok(SelectItemKind::Max(arg->Some_0))
    } else {
        Err("unsupported function "@ + name)
    }
}

/// The projection that an expression in the select list stands for.
pub open spec fn classified(e: Expr) -> Result<SelectItemKind, Seq<char>> {
    match e {
        Expr::Function(f) => if is_aggregate(uppercased(f.name@)) {
            aggregate_kind(uppercased(f.name@), f.args)
        } else {
            Ok(SelectItemKind::Other(e))
        },
        Expr::Identifier(_) => Ok(SelectItemKind::Column(e)),
        Expr::CompoundIdentifier(_) => Ok(SelectItemKind::Column(e)),
        _ => Ok(SelectItemKind::Other(e)),
    }
}

fn aggregate_name(name: &str) -> (r: bool)
    ensures
        r == is_aggregate(name@),
{
    str_eq(name, "COUNT") || str_eq(name, "SUM") || str_eq(name, "AVG") || str_eq(name, "MIN")
        || str_eq(name, "MAX")
}

/// Sorts an expression of the select list into its kind.
pub fn classify_expr(expr: Expr) -> (r: Result<SelectItemKind, Error>)
    ensures
        outcome(r) == classified(expr),
{
    match expr {
        Expr::Function(f) => {
            let name = to_uppercase(f.name.as_str());
            if aggregate_name(name.as_str()) {
                parse_func(f)
            } else {
                Ok(SelectItemKind::Other(Expr::Function(f)))
            }
        },
        Expr::Identifier(s) => Ok(SelectItemKind::Column(Expr::Identifier(s))),
        Expr::CompoundIdentifier(v) => Ok(SelectItemKind::Column(Expr::CompoundIdentifier(v))),
        other => Ok(SelectItemKind::Other(other)),
    }
}

/// The projection that an aggregate call stands for.
pub fn parse_func(f: Function) -> (r: Result<SelectItemKind, Error>)
    ensures
        outcome(r) == aggregate_kind(uppercased(f.name@), f.args),
{
    let name = to_uppercase(f.name.as_str());
    let ghost given = f.args;
    let (distinct, wildcard, arg, empty): (bool, bool, Option<Expr>, bool) = match f.args {
        FunctionArguments::Absent => (false, false, None, true),
        FunctionArguments::Subquery => {
            return Err(Error::msg("unsupported function args"));
        },
        FunctionArguments::List { distinct, args } => {
            let mut args = args;
            let ghost all = args@;
            let mut wildcard = false;
            let mut i: usize = 0;
            while i < args.len()
                invariant
                    args@ == all,
                    i <= args@.len(),
                    wildcard == (exists|k: int| 0 <= k < i && (#[trigger] args@[k]) is Wildcard),
                decreases args@.len() - i,
            {
                match &args[i] {
                    FunctionArg::Wildcard => {
                        assert(args@[i as int] is Wildcard);
                        wildcard = true;
                    },
                    _ => {},
                }
                i = i + 1;
            }
            let empty = args.len() == 0;
            let arg = if empty {
                None
            } else {
                match args.remove(0) {
                    FunctionArg::Expr(e) => Some(e),
                    _ => None,
                }
            };
            (distinct, wildcard, arg, empty)
        },
    };
    proof {
        assert(distinct == is_distinct(given));
        assert(wildcard == has_wildcard(given));
        assert(arg == first_arg(given));
        assert(empty == no_args(given));
    }
    let n = name.as_str();
    if str_eq(n, "COUNT") {
        if !distinct && (wildcard || empty) {
            return Ok(SelectItemKind::CountAll);
        }
        if let Some(e) = arg {
            if distinct {
                return Ok(SelectItemKind::CountDistinct(e));
            }
            return Ok(SelectItemKind::Count(e));
        }
    } else if !distinct {
        if let Some(e) = arg {
            if str_eq(n, "SUM") {
                return Ok(SelectItemKind::Sum(e));
            } else if str_eq(n, "AVG") {
                return Ok(SelectItemKind::Avg(e));
            } else if str_eq(n, "MIN") {
                return Ok(SelectItemKind::Min(e));
            } else if str_eq(n, "MAX") {
                return Ok(SelectItemKind::Max(e));
            }
        }
    }
    proof {
        reveal_strlit("COUNT");
        reveal_strlit("SUM");
        reveal_strlit("AVG");
        reveal_strlit("MIN");
        reveal_strlit("MAX");
    }
    let mut m = String::from_str("unsupported function ");
    m.append(n);
    Err(Error::Msg(m))
}

/// A column name, or nothing.
pub open spec fn name_or_empty(e: Expr) -> Seq<char> {
    match column_name(e) {
        Some(s) => s,
        None => Seq::empty(),
    }
}

/// The heading of a projection.
pub open spec fn label(proj: SelectProjection) -> Seq<char> {
    match proj.alias {
        Some(a) => a@,
        None => match proj.kind {
            SelectItemKind::CountAll => "count()"@,
            SelectItemKind::Count(_) => "count()"@,
            SelectItemKind::Sum(e) => "sum("@ + name_or_empty(e) + ")"@,
            SelectItemKind::Avg(e) => "avg("@ + name_or_empty(e) + ")"@,
            SelectItemKind::CountDistinct(e) => "count(distinct "@ + name_or_empty(e) + ")"@,
            SelectItemKind::Min(e) => "min("@ + name_or_empty(e) + ")"@,
            SelectItemKind::Max(e) => "max("@ + name_or_empty(e) + ")"@,
            SelectItemKind::Column(e) => match column_name(e) {
                Some(s) => s,
                None => "col"@,
            },
            SelectItemKind::Other(_) => "col"@,
        },
    }
}

fn wrapped_name(front: &str, e: &Expr) -> (s: String)
    ensures
        s@ == front@ + name_or_empty(*e) + ")"@,
{
    match column_ref(e) {
        Some(n) => join3(front, n, ")"),
        None => {
            let s = join3(front, "", ")");
            proof {
                reveal_strlit("");
                assert(""@ =~= Seq::<char>::empty());
            }
            s
        },
    }
}

/// The heading of a projection.
pub fn projection_label(proj: &SelectProjection) -> (s: String)
    ensures
        s@ == label(*proj),
{
    if let Some(a) = &proj.alias {
        return a.clone();
    }
    match &proj.kind {
        SelectItemKind::CountAll => String::from_str("count()"),
        SelectItemKind::Count(_) => String::from_str("count()"),
        SelectItemKind::Sum(e) => wrapped_name("sum(", e),
        SelectItemKind::Avg(e) => wrapped_name("avg(", e),
        SelectItemKind::CountDistinct(e) => wrapped_name("count(distinct ", e),
        SelectItemKind::Min(e) => wrapped_name("min(", e),
        SelectItemKind::Max(e) => wrapped_name("max(", e),
        SelectItemKind::Column(e) => match column_ref(e) {
            Some(n) => String::from_str(n),
            None => String::from_str("col"),
        },
        SelectItemKind::Other(_) => String::from_str("col"),
    }
}

/// The expression node of an item of the select list.
pub open spec fn item_expr(t: Tree) -> Option<Tree> {
    match payload(t, "UnnamedExpr"@) {
        Some(e) => Some(e),
        None => part(t, "ExprWithAlias"@, "expr"@),
    }
}

/// The alias of an item of the select list.
pub open spec fn item_alias(t: Tree) -> Option<Seq<char>> {
    match payload(t, "UnnamedExpr"@) {
        Some(_) => None,
        None => match part(t, "ExprWithAlias"@, "alias"@) {
            Some(a) => Some(ident_value(a)),
            None => None,
        },
    }
}

/// Whether a projection is what an item of the select list says.
pub open spec fn reads_projection(t: Tree, proj: SelectProjection) -> bool {
    &&& item_expr(t) is Some
    &&& exists|e: Expr|
        #[trigger] reads_expr(item_expr(t)->Some_0, e) && yields(classified(e), proj.kind)
    &&& match proj.alias {
        Some(a) => item_alias(t) == Some(a@),
        None => item_alias(t) is None,
    }
}

/// Whether an item of the select list is refused with a message.
pub open spec fn refuses_projection(t: Tree, m: Seq<char>) -> bool {
    if item_expr(t) is None {
        m == "unsupported select item"@
    } else {
        exists|e: Expr| #[trigger] reads_expr(item_expr(t)->Some_0, e) && fails(classified(e), m)
    }
}

/// Reads an item of the select list.
pub fn parse_projection(item: &Json) -> (r: Result<SelectProjection, Error>)
    ensures
        match r {
            Ok(p) => reads_projection(item.tree(), p),
            Err(e) => refuses_projection(item.tree(), e@),
        },
{
    let (node, alias): (&Json, Option<String>) = match get_payload(item, "UnnamedExpr") {
        Some(e) => (e, None),
        None => match get_payload(item, "ExprWithAlias") {
            None => {
                return Err(Error::msg("unsupported select item"));
            },
            Some(p) => {
                let alias = match get_field(p, "alias") {
                    Some(a) => Some(read_ident(a)),
                    None => None,
                };
                match get_field(p, "expr") {
                    Some(e) => (e, alias),
                    None => {
                        return Err(Error::msg("unsupported select item"));
                    },
                }
            },
        },
    };
    let expr = read_expr(node);
    let ghost e = expr;
    assert(reads_expr(item_expr(item.tree())->Some_0, e));
    match classify_expr(expr) {
        Ok(kind) => Ok(SelectProjection { kind, alias }),
        Err(m) => Err(m),
    }
}

/// The items of a select list that are not `*`.
pub open spec fn named_items(items: Seq<Tree>) -> Seq<Tree>
    decreases items.len(),
{
    if items.len() == 0 {
        Seq::empty()
    } else if payload(items.last(), "Wildcard"@) is Some {
        named_items(items.drop_last())
    } else {
        named_items(items.drop_last()).push(items.last())
    }
}

/// The name node of the first table of a select.
pub open spec fn from_name(select: Tree) -> Option<Tree> {
    match field(select, "from"@) {
        Some(Tree::List(l)) => if l.len() > 0 {
            match field(l[0], "relation"@) {
                Some(rel) => part(rel, "Table"@, "name"@),
                None => None,
            }
        } else {
            None
        },
        _ => None,
    }
}

/// The items of the select list.
pub open spec fn projection_items(select: Tree) -> Seq<Tree> {
    match field(select, "projection"@) {
        Some(Tree::List(l)) => l,
        _ => Seq::empty(),
    }
}

/// The grouping expressions of a select; none for `GROUP BY ALL`.
pub open spec fn group_items(select: Tree) -> Seq<Tree> {
    match field(select, "group_by"@) {
        Some(g) => match payload(g, "Expressions"@) {
            Some(Tree::List(l)) => if l.len() > 0 {
                match l[0] {
                    Tree::List(x) => x,
                    _ => Seq::empty(),
                }
            } else {
                Seq::empty()
            },
            _ => Seq::empty(),
        },
        None => Seq::empty(),
    }
}

/// The sort items of a query.
pub open spec fn order_items(query: Tree) -> Seq<Tree> {
    match field(query, "order_by"@) {
        Some(o) => match field(o, "exprs"@) {
            Some(Tree::List(l)) => l,
            _ => Seq::empty(),
        },
        None => Seq::empty(),
    }
}

/// Whether a sort expression and its direction are what a sort item says.
pub open spec fn reads_order(t: Tree, o: (Expr, bool)) -> bool {
    &&& match field(t, "expr"@) {
        Some(x) => reads_expr(x, o.0),
        None => o.0 is Other,
    }
    &&& o.1 == (field(t, "asc"@) == Some(Tree::Bool(false)))
}

/// The row limit that a node says, where it is a number that fits.
pub open spec fn count_of(t: Option<Tree>) -> Option<u64> {
    match t {
        Some(x) => match payload(x, "Value"@) {
            Some(v) => match number_of(v) {
                Some(s) => parsed_u64(s),
                None => None,
            },
            None => None,
        },
        None => None,
    }
}

/// The value of an offset clause.
pub open spec fn offset_value(query: Tree) -> Option<Tree> {
    match field(query, "offset"@) {
        Some(o) => field(o, "value"@),
        None => None,
    }
}

/// Whether an optional expression is what an optional node says.
pub open spec fn reads_optional(t: Option<Tree>, e: Option<Expr>) -> bool {
    match e {
        Some(x) => !absent(t) && reads_expr(t->Some_0, x),
        None => absent(t),
    }
}

/// Whether a query is what the nodes of a query and of its select say.
pub open spec fn reads_query(query: Tree, select: Tree, q: ParsedQuery) -> bool {
    let items = projection_items(select);
    let named = named_items(items);
    &&& from_name(select) matches Some(n) && q.from_table@ == name_display(n)
    &&& q.select_all == (exists|i: int|
        0 <= i < items.len() && payload(#[trigger] items[i], "Wildcard"@) is Some)
    &&& q.select_items@.len() == named.len()
    &&& forall|i: int|
        0 <= i < named.len() ==> reads_projection(named[i], #[trigger] q.select_items@[i])
    &&& reads_optional(field(select, "selection"@), q.where_expr)
    &&& q.group_by@.len() == group_items(select).len()
    &&& forall|i: int|
        0 <= i < q.group_by@.len() ==> reads_expr(group_items(select)[i], #[trigger] q.group_by@[i])
    &&& reads_optional(field(select, "having"@), q.having)
    &&& q.order_by@.len() == order_items(query).len()
    &&& forall|i: int|
        0 <= i < q.order_by@.len() ==> reads_order(order_items(query)[i], #[trigger] q.order_by@[i])
    &&& q.limit == count_of(field(query, "limit"@))
    &&& q.offset == count_of(offset_value(query))
}

/// Whether a select is refused with a message: it has no table to read from,
/// or an item of its select list is the first to be refused.
pub open spec fn refuses_select(select: Tree, m: Seq<char>) -> bool {
    if from_name(select) is None {
        m == "FROM table required"@
    } else {
        exists|i: int| refused_at(named_items(projection_items(select)), i, m)
    }
}

/// Whether item `i` is the first to be refused, with a message.
pub open spec fn refused_at(named: Seq<Tree>, i: int, m: Seq<char>) -> bool {
    &&& 0 <= i < named.len()
    &&& refuses_projection(named[i], m)
    &&& forall|k: int| 0 <= k < i ==> readable(#[trigger] named[k])
}

/// Whether an item of the select list can be read.
pub open spec fn readable(t: Tree) -> bool {
    exists|p: SelectProjection| reads_projection(t, p)
}

/// The query node of the first statement, or what is wrong with the text.
pub open spec fn first_query(statements: Tree) -> Result<Tree, Seq<char>> {
    match statements {
        Tree::List(l) => if l.len() == 0 {
            Err("empty query"@)
        } else {
            match payload(l[0], "Query"@) {
                Some(q) => Ok(q),
                None => Err("only SELECT supported"@),
            }
        },
        _ => Err("empty query"@),
    }
}

/// The select node of a query, or what is wrong with the query.
pub open spec fn only_select(query: Tree) -> Result<Tree, Seq<char>> {
    match field(query, "body"@) {
        Some(b) => match payload(b, "Select"@) {
            Some(s) => Ok(s),
            None => Err("only simple SELECT supported"@),
        },
        None => Err("only simple SELECT supported"@),
    }
}

/// Whether a result is what taking the statements of an SQL text apart gives.
pub open spec fn query_read(statements: Tree, r: Result<ParsedQuery, Error>) -> bool {
    match first_query(statements) {
        Err(m) => r is Err && r->Err_0@ == m,
        Ok(query) => match only_select(query) {
            Err(m) => r is Err && r->Err_0@ == m,
            Ok(select) => match r {
                Ok(q) => reads_query(query, select, q),
                Err(e) => refuses_select(select, e@),
            },
        },
    }
}

/// Takes an SQL text apart. A text that the parser refuses fails with the
/// parser's message.
pub fn parse_query(sql: &str) -> (r: Result<ParsedQuery, Error>)
    ensures
        match statements_of(sql@) {
            Err(m) => r is Err && r->Err_0 is SqlParse && r->Err_0@ == m,
            Ok(t) => query_read(t, r),
        },
{
    match parse_statements(sql) {
        Err(m) => Err(Error::SqlParse(m)),
        Ok(j) => parse_tree(&j),
    }
}

/// Takes the syntax trees of an SQL text apart.
pub fn parse_tree(statements: &Json) -> (r: Result<ParsedQuery, Error>)
    ensures
        query_read(statements.tree(), r),
{
    let list = match get_list(statements) {
        Some(l) => l,
        None => {
            return Err(Error::msg("empty query"));
        },
    };
    if list.len() == 0 {
        return Err(Error::msg("empty query"));
    }
    assert(statements.tree()->List_0[0] == list@[0].tree());
    let query = match get_payload(&list[0], "Query") {
        Some(q) => q,
        None => {
            return Err(Error::msg("only SELECT supported"));
        },
    };
    let select = match get_field(query, "body") {
        Some(b) => match get_payload(b, "Select") {
            Some(s) => s,
            None => {
                return Err(Error::msg("only simple SELECT supported"));
            },
        },
        None => {
            return Err(Error::msg("only simple SELECT supported"));
        },
    };
    parse_select(query, select)
}

fn read_from(select: &Json) -> (r: Option<String>)
    ensures
        match r {
            Some(s) => from_name(select.tree()) is Some && s@ == name_display(
                from_name(select.tree())->Some_0,
            ),
            None => from_name(select.tree()) is None,
        },
{
    match get_field(select, "from") {
        None => None,
        Some(f) => match get_list(f) {
            None => None,
            Some(l) => {
                if l.len() == 0 {
                    return None;
                }
                assert(f.tree()->List_0[0] == l@[0].tree());
                match get_field(&l[0], "relation") {
                    None => None,
                    Some(rel) => match get_payload(rel, "Table") {
                        None => None,
                        Some(t) => match get_field(t, "name") {
                            None => None,
                            Some(n) => Some(display_name(n)),
                        },
                    },
                }
            },
        },
    }
}

fn read_count(j: Option<&Json>) -> (r: Option<u64>)
    ensures
        r == count_of(
            match j {
                Some(x) => Some(x.tree()),
                None => None,
            },
        ),
{
    match j {
        None => None,
        Some(x) => match get_payload(x, "Value") {
            None => None,
            Some(v) => match read_number(v) {
                None => None,
                Some(s) => parse_u64(s.as_str()),
            },
        },
    }
}

fn read_optional(j: Option<&Json>) -> (e: Option<Expr>)
    ensures
        reads_optional(
            match j {
                Some(x) => Some(x.tree()),
                None => None,
            },
            e,
        ),
{
    match j {
        None => None,
        Some(x) => match x {
            Json::Null => None,
            _ => Some(read_expr(x)),
        },
    }
}

fn read_group(select: &Json) -> (v: Vec<Expr>)
    ensures
        v@.len() == group_items(select.tree()).len(),
        forall|i: int|
            0 <= i < v@.len() ==> reads_expr(group_items(select.tree())[i], #[trigger] v@[i]),
{
    let g = match get_field(select, "group_by") {
        Some(g) => g,
        None => {
            return Vec::new();
        },
    };
    let p = match get_payload(g, "Expressions") {
        Some(p) => p,
        None => {
            return Vec::new();
        },
    };
    match get_list(p) {
        None => Vec::new(),
        Some(l) => {
            if l.len() == 0 {
                return Vec::new();
            }
            assert(p.tree()->List_0[0] == l@[0].tree());
            match get_list(&l[0]) {
                None => Vec::new(),
                Some(x) => {
                    let v = read_exprs(x);
                    proof {
                        let trees = group_items(select.tree());
                        assert(trees == l@[0].tree()->List_0);
                        assert forall|i: int| 0 <= i < v@.len() implies reads_expr(
                            trees[i],
                            #[trigger] v@[i],
                        ) by {
                            assert(l@[0].tree()->List_0[i] == x@[i].tree());
                            assert(reads_expr(x@[i].tree(), v@[i]));
                        }
                    }
                    v
                },
            }
        },
    }
}

fn read_order(query: &Json) -> (v: Vec<(Expr, bool)>)
    ensures
        v@.len() == order_items(query.tree()).len(),
        forall|i: int|
            0 <= i < v@.len() ==> reads_order(order_items(query.tree())[i], #[trigger] v@[i]),
{
    let mut v: Vec<(Expr, bool)> = Vec::new();
    let o = match get_field(query, "order_by") {
        Some(o) => o,
        None => {
            return v;
        },
    };
    let x = match get_field(o, "exprs") {
        Some(x) => x,
        None => {
            return v;
        },
    };
    let l = match get_list(x) {
        Some(l) => l,
        None => {
            return v;
        },
    };
    let ghost trees = order_items(query.tree());
    assert(trees == x.tree()->List_0);
    let mut i: usize = 0;
    while i < l.len()
        invariant
            i <= l@.len(),
            trees.len() == l@.len(),
            forall|k: int| 0 <= k < l@.len() ==> #[trigger] trees[k] == l@[k].tree(),
            v@.len() == i,
            forall|k: int| 0 <= k < i ==> reads_order(trees[k], #[trigger] v@[k]),
        decreases l@.len() - i,
    {
        assert(trees[i as int] == l@[i as int].tree());
        let e = match get_field(&l[i], "expr") {
            Some(e) => read_expr(e),
            None => Expr::Other,
        };
        let desc = match get_field(&l[i], "asc") {
            Some(a) => match get_bool(a) {
                Some(b) => !b,
                None => false,
            },
            None => false,
        };
        v.push((e, desc));
        i = i + 1;
    }
    v
}

/// Takes a select apart.
pub fn parse_select(query: &Json, select: &Json) -> (r: Result<ParsedQuery, Error>)
    ensures
        match r {
            Ok(q) => reads_query(query.tree(), select.tree(), q),
            Err(e) => refuses_select(select.tree(), e@),
        },
{
    let from_table = match read_from(select) {
        Some(s) => s,
        None => {
            return Err(Error::msg("FROM table required"));
        },
    };
    let ghost items = projection_items(select.tree());
    let ghost named = named_items(items);
    let mut select_all = false;
    let mut select_items: Vec<SelectProjection> = Vec::new();
    if let Some(p) = get_field(select, "projection") {
        if let Some(l) = get_list(p) {
            assert(items == p.tree()->List_0);
            let mut i: usize = 0;
            assert(items.take(0) =~= Seq::<Tree>::empty());
            while i < l.len()
                invariant
                    items == projection_items(select.tree()),
                    named == named_items(items),
                    from_name(select.tree()) is Some,
                    i <= l@.len(),
                    items.len() == l@.len(),
                    forall|k: int| 0 <= k < l@.len() ==> #[trigger] items[k] == l@[k].tree(),
                    select_all == (exists|k: int|
                        0 <= k < i && payload(#[trigger] items[k], "Wildcard"@) is Some),
                    select_items@.len() == named_items(items.take(i as int)).len(),
                    forall|k: int|
                        0 <= k < select_items@.len() ==> reads_projection(
                            named_items(items.take(i as int))[k],
                            #[trigger] select_items@[k],
                        ),
                decreases l@.len() - i,
            {
                assert(items[i as int] == l@[i as int].tree());
                assert(items.take(i + 1).drop_last() =~= items.take(i as int));
                assert(items.take(i + 1).last() == items[i as int]);
                if get_payload(&l[i], "Wildcard").is_some() {
                    select_all = true;
                } else {
                    match parse_projection(&l[i]) {
                        Ok(proj) => {
                            select_items.push(proj);
                        },
                        Err(e) => {
                            proof {
                                let done = named_items(items.take(i as int));
                                lemma_named_prefix(items, i + 1);
                                assert(named[done.len() as int] == items[i as int]);
                                assert forall|k: int| 0 <= k < done.len() implies readable(
                                    #[trigger] named[k],
                                ) by {
                                    assert(named_items(items.take(i + 1))[k] == done[k]);
                                    assert(reads_projection(named[k], select_items@[k]));
                                }
                                assert(refused_at(named, done.len() as int, e@));
                            }
                            return Err(e);
                        },
                    }
                }
                i = i + 1;
            }
            assert(items.take(i as int) =~= items);
        }
    }
    let where_expr = read_optional(get_field(select, "selection"));
    let group_by = read_group(select);
    let having = read_optional(get_field(select, "having"));
    let order_by = read_order(query);
    let limit = read_count(get_field(query, "limit"));
    let offset = match get_field(query, "offset") {
        Some(o) => read_count(get_field(o, "value")),
        None => None,
    };
    Ok(
        ParsedQuery {
            from_table,
            select_items,
            select_all,
            where_expr,
            group_by,
            having,
            order_by,
            limit,
            offset,
        },
    )
}

proof fn lemma_named_prefix(items: Seq<Tree>, n: int)
    requires
        0 <= n <= items.len(),
    ensures
        named_items(items.take(n)).len() <= named_items(items).len(),
        forall|k: int|
            0 <= k < named_items(items.take(n)).len() ==> #[trigger] named_items(items)[k]
                == named_items(items.take(n))[k],
    decreases items.len(),
{
    if n < items.len() {
        lemma_named_prefix(items.drop_last(), n);
        assert(items.drop_last().take(n) =~= items.take(n));
    } else {
        assert(items.take(n) =~= items);
    }
}

/// What stands above a column of the result: the name that the query gives it, else the name
/// of the column, and for an aggregate the function with the column in brackets.
pub proof fn law_headings(p: SelectProjection, name: Seq<char>)
    ensures
        p.alias matches Some(a) ==> label(p) == a@,
        p.alias is None && (p.kind is CountAll || p.kind is Count) ==> label(p) == "count()"@,
        p.alias is None ==> (p.kind matches SelectItemKind::Column(e) ==> column_name(e) == Some(
            name,
        ) ==> label(p) == name),
        p.alias is None ==> (p.kind matches SelectItemKind::Sum(e) ==> column_name(e) == Some(name)
            ==> label(p) == "sum("@ + name + ")"@),
        p.alias is None ==> (p.kind matches SelectItemKind::Avg(e) ==> column_name(e) == Some(name)
            ==> label(p) == "avg("@ + name + ")"@),
        p.alias is None ==> (p.kind matches SelectItemKind::Min(e) ==> column_name(e) == Some(name)
            ==> label(p) == "min("@ + name + ")"@),
        p.alias is None ==> (p.kind matches SelectItemKind::Max(e) ==> column_name(e) == Some(name)
            ==> label(p) == "max("@ + name + ")"@),
        p.alias is None ==> (p.kind matches SelectItemKind::CountDistinct(e) ==> column_name(e)
            == Some(name) ==> label(p) == "count(distinct "@ + name + ")"@),
{
}

} // verus!
