//! The syntax tree of a query as a plain labelled tree.
//!
//! The SQL parser hands its syntax tree out as a JSON value, in which an enum
//! variant is an object with the variant's name as its only key, or just the
//! name where the variant has no fields.
use crate::text::str_chars;
use vstd::prelude::*;

verus! {

/// A JSON value.
pub enum Json {
    Null,
    Bool(bool),
    Number(String),
    Text(String),
    List(Vec<Json>),
    Object(Vec<(String, Json)>),
}

/// What a JSON value holds.
pub enum Tree {
    Null,
    Bool(bool),
    Number(Seq<char>),
    Text(Seq<char>),
    List(Seq<Tree>),
    Object(Seq<(Seq<char>, Tree)>),
}

impl Json {
    /// What the value holds.
    pub open spec fn tree(self) -> Tree
        decreases self,
    {
        match self {
            Json::Null => Tree::Null,
            Json::Bool(b) => Tree::Bool(b),
            Json::Number(s) => Tree::Number(s@),
            Json::Text(s) => Tree::Text(s@),
            Json::List(v) => Tree::List(
                Seq::new(
                    v@.len(),
                    |i: int|
                        if 0 <= i < v@.len() {
                            v@[i].tree()
                        } else {
                            Tree::Null
                        },
                ),
            ),
            Json::Object(v) => Tree::Object(
                Seq::new(
                    v@.len(),
                    |i: int|
                        if 0 <= i < v@.len() {
                            (v@[i].0@, v@[i].1.tree())
                        } else {
                            (Seq::empty(), Tree::Null)
                        },
                ),
            ),
        }
    }
}

/// The first entry with a key.
pub open spec fn lookup(entries: Seq<(Seq<char>, Tree)>, key: Seq<char>) -> Option<Tree>
    decreases entries.len(),
{
    if entries.len() == 0 {
        None
    } else if entries[0].0 == key {
        Some(entries[0].1)
    } else {
        lookup(entries.skip(1), key)
    }
}

/// A field of a struct node.
pub open spec fn field(t: Tree, key: Seq<char>) -> Option<Tree> {
    match t {
        Tree::Object(entries) => lookup(entries, key),
        _ => None,
    }
}

/// What a node of an enum variant with fields holds.
pub open spec fn payload(t: Tree, tag: Seq<char>) -> Option<Tree> {
    match t {
        Tree::Object(entries) => if entries.len() == 1 && entries[0].0 == tag {
            Some(entries[0].1)
        } else {
            None
        },
        _ => None,
    }
}

/// Whether a node is an enum variant without fields.
pub open spec fn is_unit(t: Tree, tag: Seq<char>) -> bool {
    t == Tree::Text(tag)
}

/// Follows a field of a struct node.
pub fn get_field<'a>(j: &'a Json, key: &str) -> (r: Option<&'a Json>)
    ensures
        match r {
            Some(x) => field(j.tree(), key@) == Some(x.tree()) && decreases_to!(*j => *x),
            None => field(j.tree(), key@) is None,
        },
{
    match j {
        Json::Object(v) => {
            let ghost entries = j.tree()->Object_0;
            let mut i: usize = 0;
            assert(entries.skip(0) =~= entries);
            while i < v.len()
                invariant
                    *j == Json::Object(*v),
                    j.tree() == Tree::Object(entries),
                    entries.len() == v@.len(),
                    i <= v@.len(),
                    lookup(entries, key@) == lookup(entries.skip(i as int), key@),
                decreases v@.len() - i,
            {
                assert(entries[i as int] == (v@[i as int].0@, v@[i as int].1.tree()));
                assert(entries.skip(i as int)[0] == entries[i as int]);
                if crate::text::str_eq(v[i].0.as_str(), key) {
                    assert(decreases_to!(*j => v@));
                    assert(decreases_to!(v@ => v@[i as int]));
                    assert(decreases_to!(v@[i as int] => v@[i as int].1));
                    return Some(&v[i].1);
                }
                assert(entries.skip(i as int).skip(1) =~= entries.skip(i + 1));
                i = i + 1;
            }
            assert(entries.skip(i as int) =~= Seq::empty());
            None
        },
        _ => None,
    }
}

/// Follows the variant with a name.
pub fn get_payload<'a>(j: &'a Json, tag: &str) -> (r: Option<&'a Json>)
    ensures
        match r {
            Some(x) => payload(j.tree(), tag@) == Some(x.tree()) && decreases_to!(*j => *x),
            None => payload(j.tree(), tag@) is None,
        },
{
    match j {
        Json::Object(v) => {
            let ghost entries = j.tree()->Object_0;
            if v.len() == 1 {
                assert(entries[0] == (v@[0].0@, v@[0].1.tree()));
                if crate::text::str_eq(v[0].0.as_str(), tag) {
                    assert(decreases_to!(*j => v@));
                    assert(decreases_to!(v@ => v@[0]));
                    assert(decreases_to!(v@[0] => v@[0].1));
                    return Some(&v[0].1);
                }
            }
            None
        },
        _ => None,
    }
}

/// Tests for a variant without fields.
pub fn has_tag(j: &Json, tag: &str) -> (r: bool)
    ensures
        r == is_unit(j.tree(), tag@),
{
    match j {
        Json::Text(s) => crate::text::str_eq(s.as_str(), tag),
        _ => false,
    }
}

/// The items of a list node.
pub fn get_list<'a>(j: &'a Json) -> (r: Option<&'a Vec<Json>>)
    ensures
        match r {
            Some(v) => {
                &&& j.tree() is List
                &&& j.tree()->List_0.len() == v@.len()
                &&& forall|i: int|
                    0 <= i < v@.len() ==> #[trigger] j.tree()->List_0[i] == v@[i].tree()
                &&& decreases_to!(*j => v@)
            },
            None => !(j.tree() is List),
        },
{
    match j {
        Json::List(v) => {
            assert(decreases_to!(*j => v@));
            Some(v)
        },
        _ => None,
    }
}

/// The text of a text node.
pub fn get_text<'a>(j: &'a Json) -> (r: Option<&'a str>)
    ensures
        match r {
            Some(s) => j.tree() == Tree::Text(s@),
            None => !(j.tree() is Text),
        },
{
    match j {
        Json::Text(s) => Some(s.as_str()),
        _ => None,
    }
}

/// The truth value of a boolean node.
pub fn get_bool(j: &Json) -> (r: Option<bool>)
    ensures
        match r {
            Some(b) => j.tree() == Tree::Bool(b),
            None => !(j.tree() is Bool),
        },
{
    match j {
        Json::Bool(b) => Some(*b),
        _ => None,
    }
}

/// The JSON value of the outside crate.
#[verifier::external_type_specification]
#[verifier::external_body]
pub struct ExValue(serde_json::Value);

/// What a `serde_json::Value` holds.
pub uninterp spec fn value_tree(v: serde_json::Value) -> Tree;

/// The syntax trees of the statements of an SQL text, or the parser's message.
pub uninterp spec fn sql_tree(sql: Seq<char>) -> Result<Tree, Seq<char>>;

/// A letter as a small one, if it is an English capital; another character as it is.
pub open spec fn small(c: char) -> char {
    if 'A' <= c <= 'Z' {
        (c as u32 + 32) as char
    } else {
        c
    }
}

/// Whether a word, in small letters, stands at a place of a text, whatever the size of
/// its letters.
pub open spec fn word_at(s: Seq<char>, i: int, word: Seq<char>) -> bool {
    &&& 0 <= i
    &&& i + word.len() <= s.len()
    &&& forall|k: int| 0 <= k < word.len() ==> small(#[trigger] s[i + k]) == word[k]
}

/// Whether a word stands somewhere in a text.
pub open spec fn has_word(s: Seq<char>, word: Seq<char>) -> bool {
    exists|i: int| #[trigger] word_at(s, i, word)
}

/// Whether a word stands somewhere in a text without being the start of a longer one.
pub open spec fn has_word_not_in(s: Seq<char>, word: Seq<char>, longer: Seq<char>) -> bool {
    exists|i: int| #[trigger] word_at(s, i, word) && !word_at(s, i, longer)
}

/// Whether a character is blank.
pub open spec fn blank(c: char) -> bool {
    c == ' ' || c == '\t' || c == '\n' || c == '\r'
}

/// Whether a selection begins at a place, with only blanks before it.
pub open spec fn selects_at(s: Seq<char>, i: int) -> bool {
    &&& word_at(s, i, "select"@)
    &&& forall|k: int| 0 <= k < i ==> blank(#[trigger] s[k])
}

/// Whether a text ends at a place, but for blanks and semicolons.
pub open spec fn ends_at(s: Seq<char>, i: int) -> bool {
    forall|k: int| i <= k < s.len() ==> blank(#[trigger] s[k]) || s[k] == ';'
}

/// Whether a text is one selection: it begins with the word, and only blanks and
/// semicolons stand behind a semicolon.
pub open spec fn one_selection(s: Seq<char>) -> bool {
    &&& exists|i: int| #[trigger] selects_at(s, i)
    &&& forall|j: int| 0 <= j < s.len() && #[trigger] s[j] == ';' ==> ends_at(s, j)
}

/// Whether a text may grant or revoke a privilege and name who granted it.
pub open spec fn may_grant(s: Seq<char>) -> bool {
    &&& !one_selection(s)
    &&& has_word(s, "granted"@)
    &&& has_word(s, "revoke"@) || has_word_not_in(s, "grant"@, "granted"@)
}

fn small_letter(c: char) -> (r: char)
    ensures
        r == small(c),
{
    match c {
        'A' => 'a', 'B' => 'b', 'C' => 'c', 'D' => 'd', 'E' => 'e', 'F' => 'f', 'G' => 'g',
        'H' => 'h', 'I' => 'i', 'J' => 'j', 'K' => 'k', 'L' => 'l', 'M' => 'm', 'N' => 'n',
        'O' => 'o', 'P' => 'p', 'Q' => 'q', 'R' => 'r', 'S' => 's', 'T' => 't', 'U' => 'u',
        'V' => 'v', 'W' => 'w', 'X' => 'x', 'Y' => 'y', 'Z' => 'z',
        _ => c,
    }
}

fn is_word_at(s: &Vec<char>, i: usize, word: &Vec<char>) -> (r: bool)
    ensures
        r == word_at(s@, i as int, word@),
{
    let total: usize = s.len();
    if i > total || word.len() > total - i {
        return false;
    }
    let mut k: usize = 0;
    while k < word.len()
        invariant
            k <= word@.len(),
            total == s@.len(),
            i + word@.len() <= total,
            forall|j: int| 0 <= j < k ==> small(#[trigger] s@[i + j]) == word@[j],
        decreases word@.len() - k,
    {
        if small_letter(s[i + k]) != word[k] {
            assert(small(s@[i + k]) != word@[k as int]);
            return false;
        }
        k = k + 1;
    }
    true
}

fn find_word_not_in(s: &Vec<char>, word: &Vec<char>, longer: &Vec<char>) -> (r: bool)
    ensures
        r == has_word_not_in(s@, word@, longer@),
{
    let total: usize = s.len();
    let mut i: usize = 0;
    loop
        invariant
            i <= total == s@.len(),
            forall|j: int|
                0 <= j < i ==> !(#[trigger] word_at(s@, j, word@) && !word_at(s@, j, longer@)),
        decreases total - i,
    {
        if is_word_at(s, i, word) && !is_word_at(s, i, longer) {
            return true;
        }
        if i == total {
            assert forall|j: int| #[trigger] word_at(s@, j, word@) implies word_at(
                s@,
                j,
                longer@,
            ) by {
                assert(0 <= j <= total);
            }
            return false;
        }
        i = i + 1;
    }
}

fn find_word(s: &Vec<char>, word: &Vec<char>) -> (r: bool)
    ensures
        r == has_word(s@, word@),
{
    let total: usize = s.len();
    let mut i: usize = 0;
    loop
        invariant
            i <= total == s@.len(),
            forall|j: int| 0 <= j < i ==> !#[trigger] word_at(s@, j, word@),
        decreases total - i,
    {
        if is_word_at(s, i, word) {
            return true;
        }
        if i == total {
            assert forall|j: int| !#[trigger] word_at(s@, j, word@) by {}
            return false;
        }
        i = i + 1;
    }
}

fn is_blank(c: char) -> (r: bool)
    ensures
        r == blank(c),
{
    c == ' ' || c == '\t' || c == '\n' || c == '\r'
}

fn is_one_selection(s: &Vec<char>) -> (r: bool)
    ensures
        r == one_selection(s@),
{
    let word = str_chars("select");
    let mut i: usize = 0;
    while i < s.len() && is_blank(s[i])
        invariant
            i <= s@.len(),
            forall|k: int| 0 <= k < i ==> blank(#[trigger] s@[k]),
        decreases s@.len() - i,
    {
        i = i + 1;
    }
    let begins = is_word_at(s, i, &word);
    proof {
        reveal_strlit("select");
        if begins {
            assert(selects_at(s@, i as int));
        } else {
            assert forall|j: int| !#[trigger] selects_at(s@, j) by {
                if selects_at(s@, j) {
                    assert(small(s@[j + 0]) == "select"@[0]);
                    if i < j {
                        assert(blank(s@[i as int]));
                    } else if j < i {
                        assert(blank(s@[j]));
                    }
                }
            }
        }
    }
    if !begins {
        return false;
    }
    let mut ended = false;
    let mut j: usize = 0;
    let ghost mut first: int = 0;
    while j < s.len()
        invariant
            j <= s@.len(),
            !ended ==> forall|k: int| 0 <= k < j ==> #[trigger] s@[k] != ';',
            ended ==> 0 <= first < j && s@[first] == ';' && (forall|k: int|
                0 <= k < first ==> #[trigger] s@[k] != ';') && forall|k: int|
                first <= k < j ==> blank(#[trigger] s@[k]) || s@[k] == ';',
        decreases s@.len() - j,
    {
        let c: char = s[j];
        if c == ';' {
            if !ended {
                proof {
                    first = j as int;
                }
            }
            ended = true;
        } else if ended && !is_blank(c) {
            assert(!ends_at(s@, first));
            return false;
        }
        j = j + 1;
    }
    true
}

/// Whether a text may grant or revoke a privilege and name who granted it.
pub fn check_grant(sql: &str) -> (r: bool)
    ensures
        r == may_grant(sql@),
{
    let s = str_chars(sql);
    if is_one_selection(&s) {
        return false;
    }
    let granted = str_chars("granted");
    find_word(&s, &granted) && (find_word(&s, &str_chars("revoke")) || find_word_not_in(
        &s,
        &str_chars("grant"),
        &granted,
    ))
}

/// `sqlparser::parser::Parser::parse_sql` in the PostgreSQL dialect, with the
/// statements turned into a JSON value by `serde_json::to_value`: what comes
/// back depends on the text alone and is called `sql_tree`. The parser panics on a
/// GRANT or REVOKE that breaks off after GRANTED BY, so texts that may hold one are
/// left out.
#[verifier::external_body]
fn parse_sql(sql: &str) -> (r: Result<serde_json::Value, String>)
    requires
        !may_grant(sql@),
    ensures
        match r {
            Ok(v) => crate::error::yields(sql_tree(sql@), value_tree(v)),
            Err(m) => crate::error::fails(sql_tree(sql@), m@),
        },
{
    let dialect = sqlparser::dialect::PostgreSqlDialect {};
    let parsed = sqlparser::parser::Parser::parse_sql(&dialect, sql).map_err(|e| e.to_string())?;
    serde_json::to_value(&parsed).map_err(|e| e.to_string())
}

/// Copies a `serde_json::Value` node by node: the copy holds what the value holds.
#[verifier::external_body]
fn json_of(v: &serde_json::Value) -> (j: Json)
    ensures
        j.tree() == value_tree(*v),
{
    match v {
        serde_json::Value::Null => Json::Null,
        serde_json::Value::Bool(b) => Json::Bool(*b),
        serde_json::Value::Number(n) => Json::Number(n.to_string()),
        serde_json::Value::String(s) => Json::Text(s.clone()),
        serde_json::Value::Array(a) => Json::List(a.iter().map(json_of).collect()),
        serde_json::Value::Object(m) => Json::Object(
            m.iter().map(|(k, x)| (k.clone(), json_of(x))).collect(),
        ),
    }
}

/// The syntax trees of the statements of an SQL text, or why there are none: a text
/// that may grant a privilege is not given to the parser.
pub open spec fn statements_of(sql: Seq<char>) -> Result<Tree, Seq<char>> {
    if may_grant(sql) {
        Err("sql parser error: GRANT and REVOKE are not supported"@)
    } else {
        sql_tree(sql)
    }
}

/// The syntax trees of the statements of an SQL text.
pub fn parse_statements(sql: &str) -> (r: Result<Json, String>)
    ensures
        match r {
            Ok(j) => crate::error::yields(statements_of(sql@), j.tree()),
            Err(m) => crate::error::fails(statements_of(sql@), m@),
        },
{
    if check_grant(sql) {
        return Err(String::from_str("sql parser error: GRANT and REVOKE are not supported"));
    }
    match parse_sql(sql) {
        Ok(v) => Ok(json_of(&v)),
        Err(m) => Err(m),
    }
}

} // verus!
