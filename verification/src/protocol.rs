//! The text protocol between server and client: lines of tab-separated values, and a
//! footer with the time that the query took.
use crate::text::{str_chars, texts};
use crate::exec::hash::text_lists;
use vstd::prelude::*;

verus! {

/// Texts with a tab between each two.
pub open spec fn tabbed(v: Seq<Seq<char>>) -> Seq<char>
    decreases v.len(),
{
    if v.len() == 0 {
        Seq::empty()
    } else if v.len() == 1 {
        v[0]
    } else {
        tabbed(v.drop_last()) + "\t"@ + v.last()
    }
}

/// Texts with a tab between each two.
pub fn join_tabs(v: &Vec<String>) -> (s: String)
    ensures
        s@ == tabbed(texts(v@)),
{
    let ghost all = texts(v@);
    let mut s = String::from_str("");
    proof {
        reveal_strlit("");
        assert(s@ =~= tabbed(all.take(0)));
    }
    let mut i: usize = 0;
    while i < v.len()
        invariant
            i <= v@.len(),
            all == texts(v@),
            s@ == tabbed(all.take(i as int)),
        decreases v@.len() - i,
    {
        proof {
            assert(all.take(i + 1).drop_last() =~= all.take(i as int));
            assert(all.take(i + 1).last() == v@[i as int]@);
        }
        if i > 0 {
            s.append("\t");
        }
        s.append(v[i].as_str());
        assert(s@ =~= tabbed(all.take(i + 1)));
        i = i + 1;
    }
    assert(all.take(i as int) =~= all);
    s
}

/// Lines of tab-separated values, each with its end.
pub open spec fn lines_of(rows: Seq<Seq<Seq<char>>>) -> Seq<char>
    decreases rows.len(),
{
    if rows.len() == 0 {
        Seq::empty()
    } else {
        lines_of(rows.drop_last()) + tabbed(rows.last()) + "\n"@
    }
}

/// What is printed of a result: a line of headings, where there are any, and a line for
/// each row.
pub open spec fn printed(columns: Seq<Seq<char>>, rows: Seq<Seq<Seq<char>>>) -> Seq<char> {
    (if columns.len() > 0 {
        tabbed(columns) + "\n"@
    } else {
        Seq::empty()
    }) + lines_of(rows)
}

/// What is printed of a result.
pub fn print_result(columns: &Vec<String>, rows: &Vec<Vec<String>>) -> (s: String)
    ensures
        s@ == printed(texts(columns@), text_lists(rows@)),
{
    let mut s = String::from_str("");
    proof {
        reveal_strlit("");
    }
    if columns.len() > 0 {
        s.append(join_tabs(columns).as_str());
        s.append("\n");
    }
    let ghost head = s@;
    let ghost all = text_lists(rows@);
    proof {
        assert(head =~= (if texts(columns@).len() > 0 {
            tabbed(texts(columns@)) + "\n"@
        } else {
            Seq::empty()
        }));
        assert(s@ =~= head + lines_of(all.take(0)));
    }
    let mut i: usize = 0;
    while i < rows.len()
        invariant
            i <= rows@.len(),
            all == text_lists(rows@),
            s@ == head + lines_of(all.take(i as int)),
        decreases rows@.len() - i,
    {
        proof {
            assert(all.take(i + 1).drop_last() =~= all.take(i as int));
            assert(all.take(i + 1).last() == texts(rows@[i as int]@));
        }
        s.append(join_tabs(&rows[i]).as_str());
        s.append("\n");
        assert(s@ =~= head + lines_of(all.take(i + 1)));
        i = i + 1;
    }
    assert(all.take(i as int) =~= all);
    s
}

/// Texts with tabs between them are those of a part, a tab and those of the rest; one text
/// alone stands as it is.
pub proof fn law_tabs_join(a: Seq<Seq<char>>, b: Seq<Seq<char>>, x: Seq<char>)
    requires
        a.len() > 0,
        b.len() > 0,
    ensures
        tabbed(seq![x]) == x,
        tabbed(a + b) == tabbed(a) + seq!['\t'] + tabbed(b),
    decreases b.len(),
{
    reveal_strlit("\t");
    assert("\t"@ =~= seq!['\t']);
    let all = a + b;
    assert(all.last() == b.last());
    if b.len() == 1 {
        assert(all.drop_last() =~= a);
    } else {
        law_tabs_join(a, b.drop_last(), x);
        assert(all.drop_last() =~= a + b.drop_last());
        assert(tabbed(all) =~= tabbed(a) + seq!['\t'] + tabbed(b));
    }
}

/// What is printed is one line after another: the lines of some rows are those of the first
/// of them and those of the others, and each row is one line with its end.
pub proof fn law_lines_join(
    columns: Seq<Seq<char>>,
    a: Seq<Seq<Seq<char>>>,
    b: Seq<Seq<Seq<char>>>,
    row: Seq<Seq<char>>,
)
    ensures
        printed(columns, a + b) == printed(columns, a) + printed(Seq::empty(), b),
        printed(Seq::empty(), seq![row]) == tabbed(row) + seq!['\n'],
        printed(Seq::empty(), Seq::empty()) == Seq::<char>::empty(),
        columns.len() > 0 ==> printed(columns, Seq::empty()) == tabbed(columns) + seq!['\n'],
{
    reveal_strlit("\n");
    assert("\n"@ =~= seq!['\n']);
    lemma_lines(a, b);
    assert(seq![row].drop_last() =~= Seq::<Seq<Seq<char>>>::empty());
    assert(lines_of(seq![row]) =~= tabbed(row) + seq!['\n']) by {
        reveal_with_fuel(lines_of, 2);
    }
    assert(printed(columns, a + b) =~= printed(columns, a) + printed(Seq::empty(), b));
    assert(printed(Seq::empty(), seq![row]) =~= tabbed(row) + seq!['\n']);
    if columns.len() > 0 {
        assert(printed(columns, Seq::empty()) =~= tabbed(columns) + seq!['\n']);
    }
}

proof fn lemma_lines(a: Seq<Seq<Seq<char>>>, b: Seq<Seq<Seq<char>>>)
    ensures
        lines_of(a + b) == lines_of(a) + lines_of(b),
    decreases b.len(),
{
    if b.len() == 0 {
        assert(a + b =~= a);
        assert(lines_of(a) + lines_of(b) =~= lines_of(a));
    } else {
        lemma_lines(a, b.drop_last());
        assert((a + b).drop_last() =~= a + b.drop_last());
        assert((a + b).last() == b.last());
        assert(lines_of(a + b) =~= lines_of(a) + lines_of(b));
    }
}

/// The number between the dashes and the `s` of a footer is read back, and a line that is
/// no footer has none.
pub proof fn law_footer_read_back(number: Seq<char>, line: Seq<char>)
    ensures
        footer_number(seq!['-', '-', ' '] + number + seq!['s']) == Some(number),
        footer_number(line) matches Some(x) ==> line == seq!['-', '-', ' '] + x + seq!['s'],
{
    let footer = seq!['-', '-', ' '] + number + seq!['s'];
    assert(footer.subrange(3, footer.len() - 1) =~= number);
    if footer_number(line) is Some {
        let x = footer_number(line)->Some_0;
        assert(line =~= seq!['-', '-', ' '] + x + seq!['s']);
    }
}

/// Whether a text ends a line.
pub open spec fn ends_line(s: Seq<char>) -> bool {
    s.len() > 0 && s.last() == '\n'
}

/// A query as it is sent: with the end of a line.
pub fn request_text(sql: &str) -> (s: String)
    ensures
        s@ == (if ends_line(sql@) {
            sql@
        } else {
            sql@ + "\n"@
        }),
{
    let chars = str_chars(sql);
    let mut s = String::from_str(sql);
    if chars.len() == 0 || chars[chars.len() - 1] != '\n' {
        s.append("\n");
    }
    s
}

/// The number in a footer of the form `-- 0.123s`, as text.
pub open spec fn footer_number(line: Seq<char>) -> Option<Seq<char>> {
    if line.len() >= 4 && line[0] == '-' && line[1] == '-' && line[2] == ' ' && line.last() == 's' {
        Some(line.subrange(3, line.len() - 1))
    } else {
        None
    }
}

/// The number in a footer of the form `-- 0.123s`, as text.
pub fn parse_timing_footer(line: &str) -> (r: Option<Vec<char>>)
    ensures
        match r {
            Some(v) => footer_number(line@) == Some(v@),
            None => footer_number(line@) is None,
        },
{
    let chars = str_chars(line);
    let n: usize = chars.len();
    if n < 4 || chars[0] != '-' || chars[1] != '-' || chars[2] != ' ' || chars[n - 1] != 's' {
        return None;
    }
    let mut v: Vec<char> = Vec::new();
    let mut i: usize = 3;
    while i < n - 1
        invariant
            4 <= n == chars@.len(),
            3 <= i <= n - 1,
            v@ =~= chars@.subrange(3, i as int),
        decreases n - i,
    {
        v.push(chars[i]);
        i = i + 1;
    }
    Some(v)
}

} // verus!
