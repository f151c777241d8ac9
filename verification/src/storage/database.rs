//! The tables of a database directory.
use crate::error::Error;
use crate::sql::ast::ParsedQuery;
use crate::sql::columns::{holds, holds_name, needs, referenced_columns};
use crate::text::join3;
use vstd::prelude::*;

verus! {

/// The version of the list of tables.
pub const MANIFEST_VERSION: u32 = 1;

/// The list of the tables of a database.
pub struct Manifest {
    pub version: u32,
    pub tables: Vec<String>,
}

impl Default for Manifest {
    /// The list of a database without tables.
    fn default() -> (m: Self)
        ensures
            m.version == MANIFEST_VERSION,
            m.tables@ == Seq::<String>::empty(),
    {
        Manifest { version: MANIFEST_VERSION, tables: Vec::new() }
    }
}

/// A database directory.
pub struct Database {
    /// The directory.
    pub root: String,
    pub manifest: Manifest,
}

/// The path of a table's directory.
pub open spec fn path_of(root: Seq<char>, name: Seq<char>) -> Seq<char> {
    root + "/"@ + name
}

/// Why a table cannot be opened, if it cannot.
pub open spec fn absent_table(tables: Seq<String>, name: Seq<char>) -> Option<Seq<char>> {
    if holds(tables, name) {
        None
    } else {
        Some("table '"@ + name + "' does not exist"@)
    }
}

impl Database {
    /// Opens a database directory with the list of tables that is kept in it. Without a
    /// list there are no tables.
    pub fn open(root: &str, manifest: Option<Manifest>) -> (d: Self)
        ensures
            d.root@ == root@,
            match manifest {
                Some(m) => d.manifest == m,
                None => d.manifest.version == MANIFEST_VERSION && d.manifest.tables@ == Seq::<
                    String,
                >::empty(),
            },
    {
        let m = match manifest {
            Some(m) => m,
            None => Manifest::default(),
        };
        Database { root: String::from_str(root), manifest: m }
    }

    /// The path of a table's directory.
    pub fn table_path(&self, name: &str) -> (p: String)
        ensures
            p@ == path_of(self.root@, name@),
    {
        join3(self.root.as_str(), "/", name)
    }

    /// Whether there is a table.
    pub fn has_table(&self, name: &str) -> (r: bool)
        ensures
            r == holds(self.manifest.tables@, name@),
    {
        holds_name(&self.manifest.tables, name)
    }

    /// The path of a table that there is.
    pub fn open_table(&self, name: &str) -> (r: Result<String, Error>)
        ensures
            match r {
                Ok(p) => absent_table(self.manifest.tables@, name@) is None && p@ == path_of(
                    self.root@,
                    name@,
                ),
                Err(e) => absent_table(self.manifest.tables@, name@) == Some(e@),
            },
    {
        if self.has_table(name) {
            Ok(self.table_path(name))
        } else {
            Err(Error::Msg(join3("table '", name, "' does not exist")))
        }
    }

    /// The path of a table that there is, and the columns of it that a query needs; all
    /// where it says nothing of columns.
    pub fn open_table_for_query(&self, name: &str, parsed: &ParsedQuery) -> (r: Result<
        (String, Option<Vec<String>>),
        Error,
    >)
        ensures
            match r {
                Ok((p, cols)) => absent_table(self.manifest.tables@, name@) is None && p@
                    == path_of(self.root@, name@) && needs(*parsed, cols),
                Err(e) => absent_table(self.manifest.tables@, name@) == Some(e@),
            },
    {
        match self.open_table(name) {
            Err(e) => Err(e),
            Ok(p) => Ok((p, referenced_columns(parsed))),
        }
    }

    /// Puts a table on the list, unless it is on it. Tells whether the list has changed
    /// and is to be kept anew.
    pub fn register_table(&mut self, name: &str) -> (changed: bool)
        ensures
            final(self).root@ == old(self).root@,
            final(self).manifest.version == old(self).manifest.version,
            changed == !holds(old(self).manifest.tables@, name@),
            !changed ==> final(self).manifest.tables@ == old(self).manifest.tables@,
            changed ==> final(self).manifest.tables@.len() == old(self).manifest.tables@.len() + 1
                && final(self).manifest.tables@.drop_last() == old(self).manifest.tables@
                && final(self).manifest.tables@.last()@ == name@,
            holds(final(self).manifest.tables@, name@),
    {
        if self.has_table(name) {
            return false;
        }
        let ghost before = self.manifest.tables@;
        self.manifest.tables.push(String::from_str(name));
        proof {
            assert(self.manifest.tables@.drop_last() =~= before);
            let last = self.manifest.tables@.len() - 1;
            assert(self.manifest.tables@[last]@ == name@);
        }
        true
    }
}

/// A table that is put on the list is there, and the others stay.
pub proof fn law_registered(before: Seq<String>, after: Seq<String>, name: Seq<char>, other: Seq<char>)
    requires
        if holds(before, name) {
            after == before
        } else {
            after.len() == before.len() + 1 && after.drop_last() == before && after.last()@ == name
        },
    ensures
        absent_table(after, name) is None,
        holds(after, other) <==> holds(before, other) || other == name,
{
    if !holds(before, name) {
        let last = after.len() - 1;
        assert(after[last]@ == name);
        if holds(before, other) {
            let i = choose|i: int| 0 <= i < before.len() && (#[trigger] before[i])@ == other;
            assert(after[i] == before[i]);
        }
        if holds(after, other) {
            let i = choose|i: int| 0 <= i < after.len() && (#[trigger] after[i])@ == other;
            if i < last {
                assert(before[i] == after[i]);
            }
        }
    }
}

} // verus!
