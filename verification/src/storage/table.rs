//! Tables: the description of their columns and the columns in memory.
use crate::error::{fails, yields, Error};
use crate::exec::hash::text_lists;
use crate::storage::column::{
    body_offsets, cells_read, column_fits, column_payload, empty_column, file_outcome, framed,
    holds_payload, lemma_cells_len, lz4_decompressed, payload_fault, sidecar_of, ColumnData, ColumnType, ColumnView,
    COMPRESS_ABOVE,
};
use crate::storage::utf8_col::{entry_is_text, entry_ok, idx_file, idx_offsets, text_offsets};
use crate::storage::zones::{zone_source, ZoneIndex, ZONE_ROWS};
use crate::sql::columns::{holds, holds_name};
use crate::text::{join3, str_eq, texts};
use vstd::prelude::*;

verus! {

/// The name and type of a column.
pub struct ColumnMeta {
    pub name: String,
    pub ty: ColumnType,
}

/// The description of a table.
pub struct TableMeta {
    pub name: String,
    pub row_count: u64,
    pub columns: Vec<ColumnMeta>,
    /// Set for synthetic demo loads, whose high-cardinality keys are one per row.
    pub demo_near_unique: bool,
}

/// A table with some of its columns in memory.
pub struct Table {
    pub meta: TableMeta,
    columns: Vec<(String, ColumnData)>,
    zones: Option<ZoneIndex>,
}

impl Table {
    /// The columns in memory, by name.
    pub closed spec fn loaded(self) -> Seq<(Seq<char>, ColumnData)> {
        Seq::new(self.columns@.len(), |i: int| (self.columns@[i].0@, self.columns@[i].1))
    }

    /// Whether a column is in memory at a place.
    pub open spec fn at(self, name: Seq<char>, i: int) -> bool {
        0 <= i < self.loaded().len() && self.loaded()[i].0 == name
    }

    /// Whether a column is in memory.
    pub open spec fn has(self, name: Seq<char>) -> bool {
        exists|i: int| self.at(name, i)
    }

    /// The values of a column in memory.
    pub open spec fn col(self, name: Seq<char>) -> ColumnView {
        self.loaded()[choose|i: int| self.at(name, i)].1@
    }

    /// No column is in memory twice, and the text columns hold valid text.
    pub open spec fn wf(self) -> bool {
        &&& forall|i: int, j: int|
            0 <= i < j < self.loaded().len() ==> (#[trigger] self.loaded()[i]).0
                != (#[trigger] self.loaded()[j]).0
        &&& forall|i: int| 0 <= i < self.loaded().len() ==> (#[trigger] self.loaded()[i]).1.wf()
    }

    /// Whether every column in memory has this row.
    pub open spec fn covers_row(self, row: int) -> bool {
        forall|i: int|
            0 <= i < self.loaded().len() ==> row < (#[trigger] self.loaded()[i]).1@.len()
    }

    /// Whether every column in memory has this many rows.
    pub open spec fn holds_rows(self, n: int) -> bool {
        forall|i: int| 0 <= i < self.loaded().len() ==> n <= (#[trigger] self.loaded()[i]).1@.len()
    }

    /// The columns in memory.
    pub open spec fn memory(self) -> Map<Seq<char>, ColumnData> {
        Map::new(
            |n: Seq<char>| self.has(n),
            |n: Seq<char>| self.loaded()[choose|i: int| self.at(n, i)].1,
        )
    }

    /// The zone index.
    pub closed spec fn index(self) -> Option<ZoneIndex> {
        self.zones
    }

    /// The description of the table.
    pub closed spec fn info(self) -> TableMeta {
        self.meta
    }

    /// The declared columns.
    pub open spec fn declared(self) -> Seq<ColumnMeta> {
        self.info().columns@
    }

    /// A column in memory has every row that all of them have.
    pub proof fn lemma_covers(self, name: Seq<char>, row: int)
        requires
            self.has(name),
            self.covers_row(row),
        ensures
            row < self.col(name).len(),
    {
        let i = choose|i: int| self.at(name, i);
        assert(self.at(name, i));
    }

    /// A column in memory holds valid text, if it holds text.
    pub proof fn lemma_memory_wf(self, name: Seq<char>)
        requires
            self.wf(),
            self.has(name),
        ensures
            self.memory()[name].wf(),
    {
        let i = choose|i: int| self.at(name, i);
        assert(self.at(name, i));
    }

    /// The place of a column in memory.
    fn find(&self, name: &str) -> (r: Option<usize>)
        ensures
            match r {
                Some(i) => self.at(name@, i as int),
                None => !self.has(name@),
            },
    {
        let mut i: usize = 0;
        while i < self.columns.len()
            invariant
                i <= self.columns@.len(),
                forall|k: int| 0 <= k < i ==> !#[trigger] self.at(name@, k),
            decreases self.columns@.len() - i,
        {
            if str_eq(self.columns[i].0.as_str(), name) {
                assert(self.at(name@, i as int));
                return Some(i);
            }
            i = i + 1;
        }
        assert forall|k: int| !#[trigger] self.at(name@, k) by {}
        None
    }

    /// A column in memory.
    pub fn column(&self, name: &str) -> (r: Result<&ColumnData, Error>)
        requires
            self.wf(),
        ensures
            match r {
                Ok(c) => self.has(name@) && c@ == self.col(name@) && c.wf(),
                Err(e) => !self.has(name@) && e@ == "column '"@ + name@ + "' not loaded"@,
            },
    {
        match self.find(name) {
            Some(i) => {
                proof {
                    let k = choose|k: int| self.at(name@, k);
                    assert(self.at(name@, i as int));
                    assert(k == i);
                }
                Ok(&self.columns[i].1)
            },
            None => Err(Error::Msg(join3("column '", name, "' not loaded"))),
        }
    }

    /// A table without rows and without columns in memory.
    pub fn create(name: &str, columns: Vec<ColumnMeta>) -> (t: Self)
        ensures
            t.info().name@ == name@,
            t.info().row_count == 0,
            t.info().columns == columns,
            !t.info().demo_near_unique,
            t.memory() == Map::<Seq<char>, ColumnData>::empty(),
            t.index() is None,
            t.wf(),
    {
        let t = Table {
            meta: TableMeta {
                name: String::from_str(name),
                row_count: 0,
                columns,
                demo_near_unique: false,
            },
            columns: Vec::new(),
            zones: None,
        };
        assert(t.memory() =~= Map::<Seq<char>, ColumnData>::empty());
        t
    }

    /// Whether no column is in memory twice and the text columns hold valid text.
    pub fn check(&self) -> (r: bool)
        ensures
            r == self.wf(),
    {
        let mut i: usize = 0;
        while i < self.columns.len()
            invariant
                i <= self.columns@.len(),
                forall|a: int, b: int|
                    0 <= a < b < i ==> (#[trigger] self.loaded()[a]).0
                        != (#[trigger] self.loaded()[b]).0,
                forall|a: int| 0 <= a < i ==> (#[trigger] self.loaded()[a]).1.wf(),
            decreases self.columns@.len() - i,
        {
            assert(self.loaded()[i as int] == (self.columns@[i as int].0@, self.columns@[i as int].1));
            if !self.columns[i].1.check() {
                return false;
            }
            let mut j: usize = 0;
            while j < i
                invariant
                    j <= i < self.columns@.len(),
                    forall|a: int|
                        0 <= a < j ==> (#[trigger] self.loaded()[a]).0 != self.loaded()[i as int].0,
                decreases i - j,
            {
                if str_eq(self.columns[j].0.as_str(), self.columns[i].0.as_str()) {
                    assert(self.loaded()[j as int].0 == self.loaded()[i as int].0);
                    return false;
                }
                j = j + 1;
            }
            i = i + 1;
        }
        true
    }

    /// Whether every column in memory has a number of rows.
    pub fn check_rows(&self, n: usize) -> (r: bool)
        ensures
            r == self.holds_rows(n as int),
    {
        let mut i: usize = 0;
        while i < self.columns.len()
            invariant
                i <= self.columns@.len(),
                forall|a: int| 0 <= a < i ==> n <= (#[trigger] self.loaded()[a]).1@.len(),
            decreases self.columns@.len() - i,
        {
            assert(self.loaded()[i as int].1 == self.columns@[i as int].1);
            if self.columns[i].1.len() < n {
                return false;
            }
            i = i + 1;
        }
        true
    }

    /// The zone index.
    pub fn zones(&self) -> (r: Option<&ZoneIndex>)
        ensures
            match r {
                Some(z) => self.index() == Some(*z),
                None => self.index() is None,
            },
    {
        match &self.zones {
            Some(z) => Some(z),
            None => None,
        }
    }

    /// Puts a zone index in the place of the one that there is.
    pub fn set_zones(&mut self, zones: Option<ZoneIndex>)
        ensures
            final(self).index() == zones,
            final(self).loaded() == old(self).loaded(),
            final(self).info() == old(self).info(),
    {
        self.zones = zones;
    }

    /// Whether the table was filled with synthetic rows.
    pub fn demo_near_unique(&self) -> (r: bool)
        ensures
            r == self.info().demo_near_unique,
    {
        self.meta.demo_near_unique
    }

    /// The number of rows.
    pub fn row_count(&self) -> (n: u64)
        ensures
            n == self.info().row_count,
    {
        self.meta.row_count
    }

    /// Sets the number of rows.
    pub fn set_row_count(&mut self, count: u64)
        ensures
            final(self).info() == (TableMeta { row_count: count, ..old(self).info() }),
            final(self).loaded() == old(self).loaded(),
            final(self).index() == old(self).index(),
    {
        self.meta.row_count = count;
    }

    /// Marks the rows as synthetic.
    pub fn mark_demo(&mut self)
        ensures
            final(self).info() == (TableMeta { demo_near_unique: true, ..old(self).info() }),
            final(self).loaded() == old(self).loaded(),
            final(self).index() == old(self).index(),
    {
        self.meta.demo_near_unique = true;
    }

    /// The names of the declared columns.
    pub fn column_names(&self) -> (v: Vec<String>)
        ensures
            texts(v@) == declared_names(self.declared()),
    {
        let mut v: Vec<String> = Vec::new();
        let mut i: usize = 0;
        while i < self.meta.columns.len()
            invariant
                i <= self.meta.columns@.len(),
                texts(v@) =~= declared_names(self.declared().take(i as int)),
            decreases self.meta.columns@.len() - i,
        {
            let ghost sofar = v@;
            v.push(self.meta.columns[i].name.clone());
            proof {
                assert(texts(v@) =~= texts(sofar).push(self.declared()[i as int].name@));
            }
            i = i + 1;
        }
        assert(self.declared().take(i as int) =~= self.declared());
        v
    }

    /// The declared type of a column.
    pub fn column_type(&self, name: &str) -> (r: Option<ColumnType>)
        ensures
            r == declared_type(self.declared(), name@),
    {
        let mut i: usize = 0;
        assert(self.declared().skip(0) =~= self.declared());
        while i < self.meta.columns.len()
            invariant
                i <= self.meta.columns@.len(),
                declared_type(self.declared(), name@) == declared_type(
                    self.declared().skip(i as int),
                    name@,
                ),
            decreases self.meta.columns@.len() - i,
        {
            proof {
                let rest = self.declared().skip(i as int);
                assert(rest[0] == self.declared()[i as int]);
                assert(rest.skip(1) =~= self.declared().skip(i + 1));
            }
            if str_eq(self.meta.columns[i].name.as_str(), name) {
                return Some(self.meta.columns[i].ty);
            }
            i = i + 1;
        }
        None
    }

    /// Whether a column is in memory.
    pub fn is_column_loaded(&self, name: &str) -> (r: bool)
        ensures
            r == self.has(name@),
    {
        match self.find(name) {
            Some(_) => true,
            None => false,
        }
    }

    /// Puts a column into memory, in the place of one with the same name.
    pub fn put_column(&mut self, name: &str, data: ColumnData)
        requires
            old(self).wf(),
            data.wf(),
        ensures
            final(self).wf(),
            final(self).info() == old(self).info(),
            final(self).index() == old(self).index(),
            final(self).memory() == old(self).memory().insert(name@, data),
    {
        let ghost before = *self;
        match self.find(name) {
            Some(i) => {
                let key = String::from_str(name);
                self.columns.set(i, (key, data));
                proof {
                    lemma_replaced(before, *self, i as int, name@, data);
                }
            },
            None => {
                self.columns.push((String::from_str(name), data));
                proof {
                    assert(self.columns@.drop_last() =~= before.columns@);
                    lemma_pushed(before, *self, name@, data);
                }
            },
        }
    }

    /// Takes a column out of memory.
    pub fn drop_column(&mut self, name: &str)
        requires
            old(self).wf(),
        ensures
            final(self).wf(),
            final(self).info() == old(self).info(),
            final(self).index() == old(self).index(),
            final(self).memory() == old(self).memory().remove(name@),
    {
        let ghost before = *self;
        match self.find(name) {
            Some(i) => {
                let _gone = self.columns.remove(i);
                proof {
                    lemma_removed(before, *self, i as int, name@);
                }
            },
            None => {
                assert(self.memory() =~= self.memory().remove(name@));
            },
        }
    }

    /// Takes columns out of memory by name.
    pub fn drop_columns(&mut self, names: &Vec<String>)
        requires
            old(self).wf(),
        ensures
            final(self).wf(),
            final(self).info() == old(self).info(),
            final(self).index() == old(self).index(),
            final(self).memory() == old(self).memory().remove_keys(name_set(names@)),
    {
        let ghost before = self.memory();
        let mut i: usize = 0;
        assert(self.memory() =~= before.remove_keys(name_set(names@.take(0))));
        while i < names.len()
            invariant
                i <= names@.len(),
                self.wf(),
                self.info() == old(self).info(),
                self.index() == old(self).index(),
                self.memory() == before.remove_keys(name_set(names@.take(i as int))),
            decreases names@.len() - i,
        {
            self.drop_column(names[i].as_str());
            proof {
                lemma_name_set(names@, i as int);
                assert(before.remove_keys(name_set(names@.take(i as int))).remove(names@[i as int]@)
                    =~= before.remove_keys(name_set(names@.take(i + 1))));
            }
            i = i + 1;
        }
        assert(names@.take(i as int) =~= names@);
    }

    /// Takes all columns out of memory but those with the given names.
    pub fn retain_columns(&mut self, keep: &Vec<String>)
        requires
            old(self).wf(),
        ensures
            final(self).wf(),
            final(self).info() == old(self).info(),
            final(self).index() == old(self).index(),
            final(self).memory() == old(self).memory().restrict(name_set(keep@)),
    {
        let mut gone: Vec<String> = Vec::new();
        let mut i: usize = 0;
        while i < self.columns.len()
            invariant
                i <= self.columns@.len(),
                *self == *old(self),
                forall|n: Seq<char>| #[trigger]
                    name_set(gone@).contains(n) <==> !name_set(keep@).contains(n) && exists|a: int|
                        0 <= a < i && self.at(n, a),
            decreases self.columns@.len() - i,
        {
            let ghost sofar = gone@;
            let n = self.columns[i].0.as_str();
            let kept = holds_name(keep, n);
            proof {
                lemma_name_set_holds(keep@, n@);
                assert(self.at(n@, i as int));
            }
            if !kept {
                gone.push(String::from_str(n));
                proof {
                    assert(gone@.take(sofar.len() as int) =~= sofar);
                    lemma_name_set(gone@, sofar.len() as int);
                    assert(gone@.take(sofar.len() as int + 1) =~= gone@);
                }
            }
            proof {
                assert forall|m: Seq<char>| #[trigger]
                    name_set(gone@).contains(m) <==> !name_set(keep@).contains(m) && exists|a: int|
                        0 <= a < i + 1 && self.at(m, a) by {
                    if name_set(sofar).contains(m) {
                        let a = choose|a: int| 0 <= a < i && self.at(m, a);
                        assert(0 <= a < i + 1 && self.at(m, a));
                    }
                    if !name_set(keep@).contains(m) && exists|a: int|
                        0 <= a < i + 1 && self.at(m, a) {
                        let a = choose|a: int| 0 <= a < i + 1 && self.at(m, a);
                        if a < i {
                            assert(0 <= a < i && self.at(m, a));
                        }
                    }
                }
            }
            i = i + 1;
        }
        self.drop_columns(&gone);
        proof {
            assert forall|n: Seq<char>| old(self).has(n) implies (name_set(gone@).contains(n)
                <==> !name_set(keep@).contains(n)) by {
                let a = choose|a: int| old(self).at(n, a);
                assert(0 <= a < i && old(self).at(n, a));
            }
            assert(self.memory() =~= old(self).memory().restrict(name_set(keep@)));
        }
    }

    /// The declared columns that are not in memory.
    pub fn unload_columns(&self) -> (v: Vec<String>)
        ensures
            texts(v@) == declared_names(self.declared()).filter(|n: Seq<char>| !self.has(n)),
    {
        let mut v: Vec<String> = Vec::new();
        let ghost all = declared_names(self.declared());
        let ghost absent = |n: Seq<char>| !self.has(n);
        let mut i: usize = 0;
        proof {
            assert(all.take(0) =~= Seq::<Seq<char>>::empty());
            reveal(Seq::filter);
        }
        while i < self.meta.columns.len()
            invariant
                i <= self.meta.columns@.len(),
                all == declared_names(self.declared()),
                absent == (|n: Seq<char>| !self.has(n)),
                texts(v@) =~= all.take(i as int).filter(absent),
            decreases self.meta.columns@.len() - i,
        {
            let n = self.meta.columns[i].name.as_str();
            let ghost sofar = v@;
            proof {
                reveal(Seq::filter);
                assert(all.take(i + 1).drop_last() =~= all.take(i as int));
                assert(all.take(i + 1).last() == n@);
            }
            if !self.is_column_loaded(n) {
                v.push(String::from_str(n));
                assert(texts(v@) =~= texts(sofar).push(n@));
            }
            i = i + 1;
        }
        assert(all.take(i as int) =~= all);
        v
    }

    /// A column in memory, to be changed.
    pub fn column_mut(&mut self, name: &str) -> (r: Result<&mut ColumnData, Error>)
        requires
            old(self).wf(),
        ensures
            match r {
                Ok(c) => {
                    &&& old(self).has(name@)
                    &&& *c == old(self).memory()[name@]
                    &&& final(self).info() == old(self).info()
                    &&& final(self).index() == old(self).index()
                    &&& final(self).memory() == old(self).memory().insert(name@, *final(c))
                    &&& final(c).wf() ==> final(self).wf()
                },
                Err(e) => {
                    &&& !old(self).has(name@)
                    &&& e@ == "column '"@ + name@ + "' not loaded"@
                    &&& *final(self) == *old(self)
                },
            },
    {
        let ghost before = *self;
        match self.find(name) {
            Some(i) => {
                proof {
                    lemma_memory_at(before, name@, i as int);
                    assert forall|after: Table|
                        replaced(before, after, i as int, after.columns@[i as int].1) implies (
                    #[trigger] after.memory()) == before.memory().insert(
                        name@,
                        after.columns@[i as int].1,
                    ) by {
                        lemma_replaced(before, after, i as int, name@, after.columns@[i as int].1);
                    }
                    assert forall|after: Table|
                        replaced(before, after, i as int, after.columns@[i as int].1)
                            && after.columns@[i as int].1.wf() implies #[trigger] after.wf() by {
                        lemma_replaced(before, after, i as int, name@, after.columns@[i as int].1);
                    }
                }
                let c = &mut self.columns[i].1;
                Ok(c)
            },
            None => Err(Error::Msg(join3("column '", name, "' not loaded"))),
        }
    }
}

/// The bytes of a column's file and of the offset file beside it.
pub struct ColumnFile {
    pub name: String,
    pub data: Vec<u8>,
    pub idx: Option<Vec<u8>>,
}

/// The first file with a name.
pub open spec fn file_of(files: Seq<ColumnFile>, name: Seq<char>) -> Option<ColumnFile>
    decreases files.len(),
{
    if files.len() == 0 {
        None
    } else if files[0].name@ == name {
        Some(files[0])
    } else {
        file_of(files.skip(1), name)
    }
}

/// The row offsets in the file beside a column's file.
pub open spec fn file_sidecar(file: ColumnFile) -> Option<Seq<u64>> {
    match file.idx {
        Some(d) => idx_offsets(d@),
        None => None,
    }
}

/// Why a file cannot be read as a column with valid text, if it cannot.
pub open spec fn file_fault(file: ColumnFile) -> Option<Seq<char>> {
    match file_outcome(file.data@) {
        Err(m) => Some(m),
        Ok((ty, payload)) => match payload_fault(payload, ty, file_sidecar(file)) {
            Some(m) => Some(m),
            None => if ty == ColumnType::Utf8 && !sound_text(
                payload.skip(8),
                body_offsets(payload.skip(8), file_sidecar(file))->Some_0,
            ) {
                Some("utf8 payload is not valid text"@)
            } else {
                None
            },
        },
    }
}

/// Whether every row of a text column's body is valid text.
pub open spec fn sound_text(body: Seq<u8>, offsets: Seq<u64>) -> bool {
    forall|i: int|
        0 <= i < offsets.len() ==> entry_ok(body, #[trigger] offsets[i] as int) && entry_is_text(
            body,
            offsets[i] as int,
        )
}

/// Whether a column is what a file without fault holds.
pub open spec fn file_holds(file: ColumnFile, col: ColumnData) -> bool {
    match file_outcome(file.data@) {
        Err(_) => false,
        Ok((ty, payload)) => holds_payload(col, payload, ty, file_sidecar(file)) && col.wf(),
    }
}

/// The place of the first file with a name.
pub(crate) fn find_file(files: &Vec<ColumnFile>, name: &str) -> (r: Option<usize>)
    ensures
        match r {
            Some(i) => i < files@.len() && file_of(files@, name@) == Some(files@[i as int]),
            None => file_of(files@, name@) is None,
        },
{
    let mut i: usize = 0;
    assert(files@.skip(0) =~= files@);
    while i < files.len()
        invariant
            i <= files@.len(),
            file_of(files@, name@) == file_of(files@.skip(i as int), name@),
        decreases files@.len() - i,
    {
        proof {
            let rest = files@.skip(i as int);
            assert(rest[0] == files@[i as int]);
            assert(rest.skip(1) =~= files@.skip(i + 1));
        }
        if str_eq(files[i].name.as_str(), name) {
            return Some(i);
        }
        i = i + 1;
    }
    None
}

/// Reads a column out of its file.
pub fn read_column_file(file: &ColumnFile) -> (r: Result<ColumnData, Error>)
    ensures
        match r {
            Ok(c) => file_fault(*file) is None && file_holds(*file, c),
            Err(e) => file_fault(*file) == Some(e@),
        },
{
    let idx: Option<&[u8]> = match &file.idx {
        Some(d) => Some(d.as_slice()),
        None => None,
    };
    assert(sidecar_of(idx) == file_sidecar(*file));
    let c = match ColumnData::read_file(file.data.as_slice(), idx) {
        Ok(c) => c,
        Err(e) => {
            return Err(e);
        },
    };
    if c.check() {
        proof {
            if let ColumnData::Utf8(v) = &c {
                assert forall|i: int| 0 <= i < v.offsets().len() implies entry_ok(
                    v.body(),
                    #[trigger] v.offsets()[i] as int,
                ) && entry_is_text(v.body(), v.offsets()[i] as int) by {
                    assert(v.row_ok(i));
                }
            }
        }
        Ok(c)
    } else {
        proof {
            if let ColumnData::Utf8(v) = &c {
                assert(!v.wf());
                let i = choose|i: int| 0 <= i < v@.len() && !#[trigger] v.row_ok(i);
                let o = v.offsets()[i];
            }
        }
        Err(Error::msg("utf8 payload is not valid text"))
    }
}

/// Whether a column is to be read.
pub open spec fn wanted(only: Option<Seq<String>>, name: Seq<char>) -> bool {
    match only {
        Some(names) => holds(names, name),
        None => true,
    }
}

/// The file from which a declared column is read, if it is wanted and there.
pub open spec fn source_of(
    columns: Seq<ColumnMeta>,
    files: Seq<ColumnFile>,
    only: Option<Seq<String>>,
    name: Seq<char>,
) -> Option<ColumnFile> {
    if declared_names(columns).contains(name) && wanted(only, name) {
        file_of(files, name)
    } else {
        None
    }
}

/// The first fault among the files that are read for the declared columns.
pub open spec fn opening_fault(
    columns: Seq<ColumnMeta>,
    files: Seq<ColumnFile>,
    only: Option<Seq<String>>,
) -> Option<Seq<char>>
    decreases columns.len(),
{
    if columns.len() == 0 {
        None
    } else {
        let rest = opening_fault(columns.drop_last(), files, only);
        if rest is Some || !wanted(only, columns.last().name@) {
            rest
        } else {
            match file_of(files, columns.last().name@) {
                None => None,
                Some(f) => file_fault(f),
            }
        }
    }
}

/// Whether memory holds just the columns that are read from files.
pub open spec fn memory_read(
    memory: Map<Seq<char>, ColumnData>,
    columns: Seq<ColumnMeta>,
    files: Seq<ColumnFile>,
    only: Option<Seq<String>>,
) -> bool {
    forall|n: Seq<char>| #![trigger memory.dom().contains(n)]
        match source_of(columns, files, only, n) {
            Some(f) => memory.dom().contains(n) && file_holds(f, memory[n]),
            None => !memory.dom().contains(n),
        }
}

proof fn lemma_declared_step(columns: Seq<ColumnMeta>, i: int)
    requires
        0 <= i < columns.len(),
    ensures
        forall|n: Seq<char>| #[trigger]
            declared_names(columns.take(i + 1)).contains(n) <==> declared_names(
                columns.take(i),
            ).contains(n) || n == columns[i].name@,
{
    let a = declared_names(columns.take(i));
    let b = declared_names(columns.take(i + 1));
    assert(b =~= a.push(columns[i].name@));
    assert forall|n: Seq<char>| #[trigger] b.contains(n) <==> a.contains(n) || n
        == columns[i].name@ by {
        if a.contains(n) {
            let k = choose|k: int| 0 <= k < a.len() && a[k] == n;
            assert(b[k] == n);
        }
        if n == columns[i].name@ {
            assert(b[i] == n);
        }
    }
}

impl Table {
    /// A table whose columns are read from files; all columns that have one.
    pub fn open(meta: TableMeta, files: &Vec<ColumnFile>, zones: Option<ZoneIndex>) -> (r: Result<
        Self,
        Error,
    >)
        ensures
            match r {
                Ok(t) => {
                    &&& opening_fault(meta.columns@, files@, None) is None
                    &&& t.wf()
                    &&& t.info() == meta
                    &&& t.index() == zones
                    &&& memory_read(t.memory(), meta.columns@, files@, None)
                },
                Err(e) => opening_fault(meta.columns@, files@, None) == Some(e@),
            },
    {
        Table::open_columns(meta, files, None, zones)
    }

    /// A table whose columns are read from files; only those that are listed, if
    /// there is a list. Declared columns without a file are left out of memory.
    pub fn open_columns(
        meta: TableMeta,
        files: &Vec<ColumnFile>,
        only: Option<&Vec<String>>,
        zones: Option<ZoneIndex>,
    ) -> (r: Result<Self, Error>)
        ensures
            match r {
                Ok(t) => {
                    &&& opening_fault(meta.columns@, files@, names_of(only)) is None
                    &&& t.wf()
                    &&& t.info() == meta
                    &&& t.index() == zones
                    &&& memory_read(t.memory(), meta.columns@, files@, names_of(only))
                },
                Err(e) => opening_fault(meta.columns@, files@, names_of(only)) == Some(e@),
            },
    {
        let ghost cols = meta.columns@;
        let ghost names = names_of(only);
        let mut t = Table { meta, columns: Vec::new(), zones };
        let mut i: usize = 0;
        proof {
            assert(cols.take(0) =~= Seq::<ColumnMeta>::empty());
            assert(t.memory() =~= Map::<Seq<char>, ColumnData>::empty());
            assert(declared_names(cols.take(0)) =~= Seq::<Seq<char>>::empty());
        }
        while i < t.meta.columns.len()
            invariant
                i <= cols.len(),
                cols == t.meta.columns@,
                t.info() == meta,
                t.index() == zones,
                t.wf(),
                names == names_of(only),
                opening_fault(cols.take(i as int), files@, names) is None,
                memory_read(t.memory(), cols.take(i as int), files@, names),
            decreases cols.len() - i,
        {
            let name = t.meta.columns[i].name.clone();
            proof {
                assert(cols.take(i + 1).drop_last() =~= cols.take(i as int));
                lemma_declared_step(cols, i as int);
            }
            let want = match only {
                Some(list) => holds_name(list, name.as_str()),
                None => true,
            };
            if want {
                if let Some(k) = find_file(files, name.as_str()) {
                    match read_column_file(&files[k]) {
                        Err(e) => {
                            proof {
                                lemma_fault_prefix(cols, files@, names, i + 1);
                            }
                            return Err(e);
                        },
                        Ok(c) => {
                            let ghost before = t.memory();
                            t.put_column(name.as_str(), c);
                            proof {
                                lemma_memory_step(
                                    before,
                                    t.memory(),
                                    cols,
                                    files@,
                                    names,
                                    i as int,
                                );
                            }
                            i = i + 1;
                            continue;
                        },
                    }
                }
            }
            proof {
                lemma_memory_step(t.memory(), t.memory(), cols, files@, names, i as int);
            }
            i = i + 1;
        }
        assert(cols.take(i as int) =~= cols);
        Ok(t)
    }
}

/// Reading one more declared column.
proof fn lemma_memory_step(
    before: Map<Seq<char>, ColumnData>,
    after: Map<Seq<char>, ColumnData>,
    columns: Seq<ColumnMeta>,
    files: Seq<ColumnFile>,
    only: Option<Seq<String>>,
    i: int,
)
    requires
        0 <= i < columns.len(),
        memory_read(before, columns.take(i), files, only),
        ({
            let name = columns[i].name@;
            if wanted(only, name) && file_of(files, name) is Some {
                exists|c: ColumnData|
                    file_holds(file_of(files, name)->Some_0, c) && after == #[trigger] before.insert(
                        name,
                        c,
                    )
            } else {
                after == before
            }
        }),
    ensures
        memory_read(after, columns.take(i + 1), files, only),
{
    lemma_declared_step(columns, i);
    assert forall|n: Seq<char>| #![trigger after.dom().contains(n)]
        match source_of(columns.take(i + 1), files, only, n) {
            Some(f) => after.dom().contains(n) && file_holds(f, after[n]),
            None => !after.dom().contains(n),
        } by {
        assert(declared_names(columns.take(i + 1)).contains(n) <==> declared_names(
            columns.take(i),
        ).contains(n) || n == columns[i].name@);
        assert(match source_of(columns.take(i), files, only, n) {
            Some(f) => before.dom().contains(n) && file_holds(f, before[n]),
            None => !before.dom().contains(n),
        });
    }
}

/// Whether a column is to be read into memory: it is declared and not there yet.
pub open spec fn loadable(t: Table, name: Seq<char>) -> bool {
    !t.has(name) && declared_type(t.declared(), name) is Some
}

/// Why a column cannot be read from files, if it cannot.
pub open spec fn read_fault(files: Seq<ColumnFile>, name: Seq<char>) -> Option<Seq<char>> {
    match file_of(files, name) {
        None => Some("column file missing: "@ + name),
        Some(f) => file_fault(f),
    }
}

/// The first fault among the columns that are to be read into memory.
pub open spec fn loading_fault(t: Table, files: Seq<ColumnFile>, names: Seq<String>) -> Option<
    Seq<char>,
>
    decreases names.len(),
{
    if names.len() == 0 {
        None
    } else {
        let rest = loading_fault(t, files, names.drop_last());
        if rest is Some || !loadable(t, names.last()@) {
            rest
        } else {
            read_fault(files, names.last()@)
        }
    }
}

/// Whether memory is what it was with columns read from files added.
pub open spec fn memory_loaded(
    t: Table,
    memory: Map<Seq<char>, ColumnData>,
    files: Seq<ColumnFile>,
    names: Seq<String>,
) -> bool {
    forall|n: Seq<char>| #![trigger memory.dom().contains(n)]
        if loadable(t, n) && holds(names, n) {
            memory.dom().contains(n) && file_of(files, n) is Some && file_holds(
                file_of(files, n)->Some_0,
                memory[n],
            )
        } else {
            &&& memory.dom().contains(n) <==> t.memory().dom().contains(n)
            &&& memory.dom().contains(n) ==> memory[n] == t.memory()[n]
        }
}

/// A fault among the first names is the fault of all.
proof fn lemma_loading_prefix(t: Table, files: Seq<ColumnFile>, names: Seq<String>, i: int)
    requires
        0 <= i <= names.len(),
        loading_fault(t, files, names.take(i)) is Some,
    ensures
        loading_fault(t, files, names) == loading_fault(t, files, names.take(i)),
    decreases names.len() - i,
{
    if i == names.len() {
        assert(names.take(i) =~= names);
    } else {
        assert(names.take(i + 1).drop_last() =~= names.take(i));
        lemma_loading_prefix(t, files, names, i + 1);
    }
}

proof fn lemma_holds_step(names: Seq<String>, i: int)
    requires
        0 <= i < names.len(),
    ensures
        forall|n: Seq<char>| #[trigger]
            holds(names.take(i + 1), n) <==> holds(names.take(i), n) || n == names[i]@,
{
    assert forall|n: Seq<char>| #[trigger] holds(names.take(i + 1), n) <==> holds(names.take(i), n)
        || n == names[i]@ by {
        if holds(names.take(i), n) {
            let k = choose|k: int| 0 <= k < i && (#[trigger] names.take(i)[k])@ == n;
            assert(names.take(i + 1)[k]@ == n);
        }
        if n == names[i]@ {
            assert(names.take(i + 1)[i]@ == n);
        }
        if holds(names.take(i + 1), n) {
            let k = choose|k: int| 0 <= k < i + 1 && (#[trigger] names.take(i + 1)[k])@ == n;
            if k < i {
                assert(names.take(i)[k]@ == n);
            }
        }
    }
}

/// The texts of some rows of a declared column: from memory, or from its file.
pub open spec fn column_cells(
    t: Table,
    files: Seq<ColumnFile>,
    name: Seq<char>,
    rows: Seq<usize>,
) -> Result<Seq<Seq<char>>, Seq<char>> {
    if t.has(name) {
        Ok(Seq::new(rows.len(), |i: int| t.col(name).cell_text(rows[i] as int)))
    } else {
        match file_of(files, name) {
            None => Err("column file missing: "@ + name),
            Some(f) => cells_read(f.data@, file_sidecar(f), rows),
        }
    }
}

/// The first fault among the declared columns, when some rows are read.
pub open spec fn projection_fault(
    t: Table,
    files: Seq<ColumnFile>,
    rows: Seq<usize>,
    n: nat,
) -> Option<Seq<char>>
    decreases n,
{
    if n == 0 {
        None
    } else {
        let rest = projection_fault(t, files, rows, (n - 1) as nat);
        if rest is Some {
            rest
        } else {
            match column_cells(t, files, t.declared()[n - 1].name@, rows) {
                Ok(_) => None,
                Err(m) => Some(m),
            }
        }
    }
}

/// The cells of some rows, one row of texts for each.
pub open spec fn projected(t: Table, files: Seq<ColumnFile>, rows: Seq<usize>, n: nat) -> Seq<
    Seq<Seq<char>>,
> {
    Seq::new(
        rows.len(),
        |r: int|
            Seq::new(
                n,
                |c: int| column_cells(t, files, t.declared()[c].name@, rows)->Ok_0[r],
            ),
    )
}

/// A fault in an earlier column is the fault of all.
proof fn lemma_projection_prefix(t: Table, files: Seq<ColumnFile>, rows: Seq<usize>, i: nat, n: nat)
    requires
        i <= n,
        projection_fault(t, files, rows, i) is Some,
    ensures
        projection_fault(t, files, rows, n) == projection_fault(t, files, rows, i),
    decreases n,
{
    if i < n {
        lemma_projection_prefix(t, files, rows, i, (n - 1) as nat);
    }
}

/// Whether bytes are what a column is written as.
pub open spec fn written(col: ColumnView, file: ColumnFile) -> bool {
    &&& exists|packed: Option<Seq<u8>>|
        {
            &&& file.data@ == #[trigger] framed(col.column_type(), column_payload(col), packed)
            &&& packed is Some <==> column_payload(col).len() > COMPRESS_ABOVE
            &&& packed matches Some(p) ==> column_payload(col).len() <= u32::MAX ==> yields(
                lz4_decompressed(p),
                column_payload(col),
            )
        }
    &&& match col {
        ColumnView::Utf8(rows) => file.idx is Some && file.idx->Some_0@ == idx_file(
            text_offsets(rows),
        ),
        _ => file.idx is None,
    }
}

/// The declared columns among the first `n` that are in memory.
pub open spec fn present(t: Table, n: nat) -> Seq<Seq<char>> {
    declared_names(t.declared().take(n as int)).filter(|x: Seq<char>| t.has(x))
}

impl Table {
    /// Reads columns into memory that are declared and not there yet. If one
    /// cannot be read, memory stays as it was.
    pub fn load_columns(&mut self, names: &Vec<String>, files: &Vec<ColumnFile>) -> (r: Result<
        (),
        Error,
    >)
        requires
            old(self).wf(),
        ensures
            final(self).wf(),
            final(self).info() == old(self).info(),
            final(self).index() == old(self).index(),
            match r {
                Ok(_) => loading_fault(*old(self), files@, names@) is None && memory_loaded(
                    *old(self),
                    final(self).memory(),
                    files@,
                    names@,
                ),
                Err(e) => loading_fault(*old(self), files@, names@) == Some(e@) && *final(self)
                    == *old(self),
            },
    {
        let ghost t0 = *self;
        let mut found: Vec<(String, ColumnData)> = Vec::new();
        let mut i: usize = 0;
        assert(names@.take(0) =~= Seq::<String>::empty());
        while i < names.len()
            invariant
                i <= names@.len(),
                t0 == *self,
                self.wf(),
                loading_fault(t0, files@, names@.take(i as int)) is None,
                forall|k: int| 0 <= k < found@.len() ==> found_ok(t0, files@, #[trigger] found@[k]),
                forall|n: Seq<char>|
                    loadable(t0, n) && #[trigger] holds(names@.take(i as int), n) ==> exists|k: int|
                        0 <= k < found@.len() && (#[trigger] found@[k]).0@ == n,
                forall|k: int|
                    0 <= k < found@.len() ==> holds(
                        names@.take(i as int),
                        (#[trigger] found@[k]).0@,
                    ),
            decreases names@.len() - i,
        {
            let name = names[i].as_str();
            proof {
                assert(names@.take(i + 1).drop_last() =~= names@.take(i as int));
                lemma_holds_step(names@, i as int);
            }
            let known = match self.column_type(name) {
                Some(_) => true,
                None => false,
            };
            let ghost sofar = found@;
            if known && !self.is_column_loaded(name) {
                match find_file(files, name) {
                    None => {
                        let mut m = String::from_str("column file missing: ");
                        m.append(name);
                        proof {
                            lemma_loading_prefix(t0, files@, names@, i + 1);
                        }
                        return Err(Error::Msg(m));
                    },
                    Some(k) => match read_column_file(&files[k]) {
                        Err(e) => {
                            proof {
                                lemma_loading_prefix(t0, files@, names@, i + 1);
                            }
                            return Err(e);
                        },
                        Ok(c) => {
                            found.push((String::from_str(name), c));
                        },
                    },
                }
            }
            proof {
                assert forall|n: Seq<char>|
                    loadable(t0, n) && #[trigger] holds(names@.take(i + 1), n) implies exists|k: int|
                    0 <= k < found@.len() && (#[trigger] found@[k]).0@ == n by {
                    if holds(names@.take(i as int), n) {
                        let k = choose|k: int| 0 <= k < sofar.len() && (#[trigger] sofar[k]).0@ == n;
                        assert(found@[k].0@ == n);
                    } else {
                        assert(found@[sofar.len() as int].0@ == n);
                    }
                }
                assert forall|k: int| 0 <= k < found@.len() implies holds(
                    names@.take(i + 1),
                    (#[trigger] found@[k]).0@,
                ) by {
                    if k < sofar.len() {
                        assert(found@[k] == sofar[k]);
                    }
                }
            }
            i = i + 1;
        }
        assert(names@.take(i as int) =~= names@);
        let ghost list = found@;
        let ghost mut done: int = 0;
        let mut left: Vec<(String, ColumnData)> = found;
        assert(left@ =~= list.take(list.len() as int));
        while left.len() > 0
            invariant
                self.wf(),
                self.info() == t0.info(),
                self.index() == t0.index(),
                0 <= done <= list.len(),
                left@ == list.take(list.len() - done),
                forall|k: int| 0 <= k < list.len() ==> found_ok(t0, files@, #[trigger] list[k]),
                forall|n: Seq<char>| #![trigger self.memory().dom().contains(n)]
                    if exists|k: int|
                        list.len() - done <= k < list.len() && (#[trigger] list[k]).0@ == n {
                        self.memory().dom().contains(n) && file_of(files@, n) is Some && file_holds(
                            file_of(files@, n)->Some_0,
                            self.memory()[n],
                        )
                    } else {
                        &&& self.memory().dom().contains(n) <==> t0.memory().dom().contains(n)
                        &&& self.memory().dom().contains(n) ==> self.memory()[n]
                            == t0.memory()[n]
                    },
            decreases left@.len(),
        {
            let ghost before = self.memory();
            let ghost at = left@.len() - 1;
            if let Some((name, data)) = left.pop() {
                proof {
                    assert(list[at] == (name, data));
                    assert(found_ok(t0, files@, list[at]));
                }
                self.put_column(name.as_str(), data);
                proof {
                    done = done + 1;
                    assert(left@ =~= list.take(list.len() - done));
                    assert forall|n: Seq<char>| #![trigger self.memory().dom().contains(n)]
                        if exists|k: int|
                            list.len() - done <= k < list.len() && (#[trigger] list[k]).0@ == n {
                            self.memory().dom().contains(n) && file_of(files@, n) is Some
                                && file_holds(file_of(files@, n)->Some_0, self.memory()[n])
                        } else {
                            &&& self.memory().dom().contains(n) <==> t0.memory().dom().contains(n)
                            &&& self.memory().dom().contains(n) ==> self.memory()[n]
                                == t0.memory()[n]
                        } by {
                        assert(before.dom().contains(n) || !before.dom().contains(n));
                        if n == name@ {
                            assert(list[at].0@ == n);
                        } else {
                            if exists|k: int|
                                list.len() - done <= k < list.len() && (#[trigger] list[k]).0@ == n {
                                let k = choose|k: int|
                                    list.len() - done <= k < list.len() && (#[trigger] list[k]).0@
                                        == n;
                                assert(k != at);
                                assert(list.len() - (done - 1) <= k);
                            }
                        }
                    }
                }
            }
        }
        proof {
            assert(memory_loaded(t0, self.memory(), files@, names@)) by {
                assert forall|n: Seq<char>| #![trigger self.memory().dom().contains(n)]
                    if loadable(t0, n) && holds(names@, n) {
                        self.memory().dom().contains(n) && file_of(files@, n) is Some && file_holds(
                            file_of(files@, n)->Some_0,
                            self.memory()[n],
                        )
                    } else {
                        &&& self.memory().dom().contains(n) <==> t0.memory().dom().contains(n)
                        &&& self.memory().dom().contains(n) ==> self.memory()[n]
                            == t0.memory()[n]
                    } by {
                    assert(self.memory().dom().contains(n) || !self.memory().dom().contains(n));
                    if loadable(t0, n) && holds(names@, n) {
                        let k = choose|k: int| 0 <= k < list.len() && (#[trigger] list[k]).0@ == n;
                        assert(0 <= k < list.len() && list[k].0@ == n);
                        assert(list.len() - done <= k);
                    } else {
                        assert(!exists|k: int|
                            list.len() - done <= k < list.len() && (#[trigger] list[k]).0@ == n)
                            by {
                            if exists|k: int|
                                list.len() - done <= k < list.len() && (#[trigger] list[k]).0@
                                    == n {
                                let k = choose|k: int|
                                    list.len() - done <= k < list.len() && (#[trigger] list[k]).0@
                                        == n;
                                assert(found_ok(t0, files@, list[k]));
                                assert(holds(names@, list[k].0@));
                            }
                        }
                    }
                }
            }
        }
        Ok(())
    }

    /// The texts of some rows of all declared columns, from memory where a column
    /// is there and from its file where it is not; with the names of the columns.
    pub fn project_rows(&self, rows: &Vec<usize>, files: &Vec<ColumnFile>) -> (r: Result<
        (Vec<String>, Vec<Vec<String>>),
        Error,
    >)
        requires
            self.wf(),
            forall|i: int|
                0 <= i < rows@.len() ==> self.covers_row((#[trigger] rows@[i]) as int),
        ensures
            match r {
                Ok((names, out)) => {
                    &&& projection_fault(*self, files@, rows@, self.declared().len()) is None
                    &&& texts(names@) == declared_names(self.declared())
                    &&& text_lists(out@) == projected(*self, files@, rows@, self.declared().len())
                },
                Err(e) => projection_fault(*self, files@, rows@, self.declared().len()) == Some(e@),
            },
    {
        let names = self.column_names();
        let mut out: Vec<Vec<String>> = Vec::new();
        let mut i: usize = 0;
        while i < rows.len()
            invariant
                i <= rows@.len(),
                out@.len() == i,
                forall|k: int| 0 <= k < i ==> (#[trigger] out@[k])@.len() == 0,
            decreases rows@.len() - i,
        {
            out.push(Vec::new());
            i = i + 1;
        }
        assert(text_lists(out@) =~= projected(*self, files@, rows@, 0)) by {
            assert forall|k: int| 0 <= k < out@.len() implies #[trigger] text_lists(out@)[k]
                == projected(*self, files@, rows@, 0)[k] by {
                assert(out@[k]@.len() == 0);
                assert(text_lists(out@)[k] =~= projected(*self, files@, rows@, 0)[k]);
            }
        }
        let mut c: usize = 0;
        while c < self.meta.columns.len()
            invariant
                c <= self.declared().len(),
                self.wf(),
                self.declared() == self.meta.columns@,
                forall|i: int|
                    0 <= i < rows@.len() ==> self.covers_row((#[trigger] rows@[i]) as int),
                projection_fault(*self, files@, rows@, c as nat) is None,
                out@.len() == rows@.len(),
                text_lists(out@) == projected(*self, files@, rows@, c as nat),
            decreases self.declared().len() - c,
        {
            let name = self.meta.columns[c].name.as_str();
            let cells = match self.cells_of(name, rows, files) {
                Ok(v) => v,
                Err(e) => {
                    proof {
                        lemma_projection_prefix(
                            *self,
                            files@,
                            rows@,
                            (c + 1) as nat,
                            self.declared().len(),
                        );
                    }
                    return Err(e);
                },
            };
            let ghost start = out@;
            let ghost want = column_cells(*self, files@, name@, rows@)->Ok_0;
            let mut k: usize = 0;
            while k < rows.len()
                invariant
                    k <= rows@.len(),
                    cells@.len() == rows@.len(),
                    out@.len() == rows@.len(),
                    start.len() == rows@.len(),
                    texts(cells@) == want,
                    forall|j: int|
                        0 <= j < k ==> texts((#[trigger] out@[j])@) == texts(start[j]@).push(
                            want[j],
                        ),
                    forall|j: int| k <= j < rows@.len() ==> #[trigger] out@[j] == start[j],
                decreases rows@.len() - k,
            {
                let cell = cells[k].clone();
                assert(texts(cells@)[k as int] == cell@);
                let ghost row = out@[k as int]@;
                let slot = &mut out[k];
                slot.push(cell);
                proof {
                    assert(texts(out@[k as int]@) =~= texts(row).push(cell@));
                }
                k = k + 1;
            }
            proof {
                let a = projected(*self, files@, rows@, c as nat);
                let b = projected(*self, files@, rows@, (c + 1) as nat);
                assert forall|j: int| 0 <= j < out@.len() implies #[trigger] text_lists(out@)[j]
                    == b[j] by {
                    assert(texts(out@[j]@) == texts(start[j]@).push(want[j]));
                    assert(text_lists(start)[j] == a[j]);
                    assert(a[j].push(want[j]) =~= b[j]);
                }
                assert(text_lists(out@) =~= b);
            }
            c = c + 1;
        }
        Ok((names, out))
    }

    /// The texts of some rows of a column.
    fn cells_of(&self, name: &str, rows: &Vec<usize>, files: &Vec<ColumnFile>) -> (r: Result<
        Vec<String>,
        Error,
    >)
        requires
            self.wf(),
            forall|i: int|
                0 <= i < rows@.len() ==> self.covers_row((#[trigger] rows@[i]) as int),
        ensures
            match r {
                Ok(v) => yields(column_cells(*self, files@, name@, rows@), texts(v@)) && v@.len()
                    == rows@.len(),
                Err(e) => fails(column_cells(*self, files@, name@, rows@), e@),
            },
    {
        match self.column(name) {
            Ok(col) => {
                let mut v: Vec<String> = Vec::new();
                let mut i: usize = 0;
                while i < rows.len()
                    invariant
                        i <= rows@.len(),
                        self.has(name@),
                        col@ == self.col(name@),
                        col.wf(),
                        v@.len() == i,
                        forall|i: int|
                            0 <= i < rows@.len() ==> self.covers_row((#[trigger] rows@[i]) as int),
                        forall|k: int|
                            0 <= k < i ==> (#[trigger] v@[k])@ == self.col(name@).cell_text(
                                rows@[k] as int,
                            ),
                    decreases rows@.len() - i,
                {
                    proof {
                        assert(self.covers_row(rows@[i as int] as int));
                        self.lemma_covers(name@, rows@[i as int] as int);
                    }
                    v.push(ColumnData::cell_to_string(col, rows[i]));
                    i = i + 1;
                }
                assert(texts(v@) =~= column_cells(*self, files@, name@, rows@)->Ok_0);
                Ok(v)
            },
            Err(_) => match find_file(files, name) {
                None => {
                    let mut m = String::from_str("column file missing: ");
                    m.append(name);
                    Err(Error::Msg(m))
                },
                Some(k) => {
                    let file = &files[k];
                    let idx: Option<&[u8]> = match &file.idx {
                        Some(d) => Some(d.as_slice()),
                        None => None,
                    };
                    assert(sidecar_of(idx) == file_sidecar(*file));
                    match ColumnData::read_cells_at(file.data.as_slice(), idx, rows) {
                        Ok(v) => {
                            proof {
                                lemma_cells_len(file.data@, file_sidecar(*file), rows@);
                            }
                            assert(texts(v@).len() == v@.len());
                            Ok(v)
                        },
                        Err(e) => Err(e),
                    }
                },
            },
        }
    }

    /// A column in memory, to be changed; if it is not there, an empty column is
    /// put there first, and declared unless it is declared already.
    pub fn ensure_column(&mut self, name: &str, ty: ColumnType) -> (c: &mut ColumnData)
        requires
            old(self).wf(),
        ensures
            old(self).has(name@) ==> *c == old(self).memory()[name@] && final(self).info()
                == old(self).info(),
            !old(self).has(name@) ==> {
                &&& c@.len() == 0
                &&& c@.column_type() == ty
                &&& c.growable()
                &&& c.wf()
                &&& final(self).declared().len() == old(self).declared().len() + (
                if declared_type(old(self).declared(), name@) is Some {
                    0int
                } else {
                    1int
                })
                &&& final(self).declared().take(old(self).declared().len() as int)
                    == old(self).declared()
                &&& declared_type(old(self).declared(), name@) is None ==> {
                    &&& final(self).declared().last().name@ == name@
                    &&& final(self).declared().last().ty == ty
                }
                &&& final(self).info().row_count == old(self).info().row_count
                &&& final(self).info().name == old(self).info().name
                &&& final(self).info().demo_near_unique == old(self).info().demo_near_unique
            },
            final(self).index() == old(self).index(),
            final(self).memory() == old(self).memory().insert(name@, *final(c)),
            final(c).wf() ==> final(self).wf(),
    {
        let ghost before = *self;
        let at: usize = match self.find(name) {
            Some(i) => i,
            None => {
                if self.column_type(name).is_none() {
                    self.meta.columns.push(ColumnMeta { name: String::from_str(name), ty });
                }
                assert(self.declared().take(before.declared().len() as int) =~= before.declared());
                self.columns.push((String::from_str(name), empty_column(ty)));
                proof {
                    assert(self.columns@.drop_last() =~= before.columns@);
                    lemma_pushed(before, *self, name@, self.columns@.last().1);
                }
                self.columns.len() - 1
            },
        };
        let ghost mid = *self;
        proof {
            assert(mid.at(name@, at as int));
            lemma_memory_at(mid, name@, at as int);
            assert forall|after: Table|
                replaced(mid, after, at as int, after.columns@[at as int].1) implies (
            #[trigger] after.memory()) == before.memory().insert(
                name@,
                after.columns@[at as int].1,
            ) by {
                lemma_replaced(mid, after, at as int, name@, after.columns@[at as int].1);
                assert(mid.memory().insert(name@, after.columns@[at as int].1)
                    =~= before.memory().insert(name@, after.columns@[at as int].1));
            }
            assert forall|after: Table|
                replaced(mid, after, at as int, after.columns@[at as int].1)
                    && after.columns@[at as int].1.wf() implies #[trigger] after.wf() by {
                lemma_replaced(mid, after, at as int, name@, after.columns@[at as int].1);
            }
        }
        &mut self.columns[at].1
    }

    /// The files of the declared columns in memory, to be written; the zone index
    /// is built anew where the columns for one are in memory.
    pub fn flush(&mut self) -> (files: Vec<ColumnFile>)
        requires
            old(self).wf(),
            forall|n: Seq<char>|
                old(self).has(n) ==> column_fits(#[trigger] old(self).col(n)),
            zone_source(*old(self)) matches Some(src) ==> src.reaches(),
        ensures
            final(self).loaded() == old(self).loaded(),
            final(self).info() == old(self).info(),
            match zone_source(*old(self)) {
                Some(src) if src.rows() > 0 => final(self).index() is Some
                    && final(self).index()->Some_0.indexes(src),
                _ => final(self).index() == old(self).index(),
            },
            files@.len() == present(*old(self), old(self).declared().len()).len(),
            forall|i: int|
                0 <= i < files@.len() ==> {
                    let n = present(*old(self), old(self).declared().len())[i];
                    (#[trigger] files@[i]).name@ == n && written(old(self).col(n), files@[i])
                },
    {
        let mut files: Vec<ColumnFile> = Vec::new();
        let ghost loaded = |x: Seq<char>| self.has(x);
        let ghost all = declared_names(self.declared());
        let mut i: usize = 0;
        proof {
            assert(declared_names(self.declared().take(0)) =~= Seq::<Seq<char>>::empty());
            reveal(Seq::filter);
        }
        while i < self.meta.columns.len()
            invariant
                *self == *old(self),
                self.wf(),
                i <= self.declared().len(),
                self.declared() == self.meta.columns@,
                forall|n: Seq<char>| self.has(n) ==> column_fits(#[trigger] self.col(n)),
                files@.len() == present(*self, i as nat).len(),
                forall|k: int|
                    0 <= k < files@.len() ==> (#[trigger] files@[k]).name@ == present(
                        *self,
                        i as nat,
                    )[k] && written(self.col(present(*self, i as nat)[k]), files@[k]),
            decreases self.declared().len() - i,
        {
            let name = self.meta.columns[i].name.as_str();
            proof {
                reveal(Seq::filter);
                let a = declared_names(self.declared().take(i as int));
                let b = declared_names(self.declared().take(i + 1));
                assert(b.drop_last() =~= a);
                assert(b.last() == name@);
            }
            if let Ok(col) = self.column(name) {
                assert(column_fits(self.col(name@)));
                let (data, idx) = col.write_file();
                let file = ColumnFile { name: String::from_str(name), data, idx };
                assert(written(self.col(name@), file));
                let ghost sofar = files@;
                files.push(file);
                proof {
                    let p = present(*self, i as nat);
                    let q = present(*self, (i + 1) as nat);
                    assert(q == p.push(name@));
                    assert forall|k: int| 0 <= k < files@.len() implies (#[trigger] files@[k]).name@
                        == q[k] && written(self.col(q[k]), files@[k]) by {
                        if k < sofar.len() {
                            assert(files@[k] == sofar[k]);
                            assert(q[k] == p[k]);
                        }
                    }
                }
            }
            i = i + 1;
        }
        let ghost t0 = *self;
        if let Some(index) = ZoneIndex::build(self) {
            self.zones = Some(index);
        }
        files
    }

    /// Builds the zone index from the files of the columns that it is built from,
    /// which then leave memory. Columns that do not reach far enough for an index
    /// are refused.
    pub fn build_zones_from_disk(&mut self, files: &Vec<ColumnFile>) -> (r: Result<(), Error>)
        requires
            old(self).wf(),
        ensures
            final(self).wf(),
            final(self).info() == old(self).info(),
            zones_built(*old(self), *final(self), files@, r),
    {
        let ghost t0 = *self;
        let names = self.zone_columns();
        if names.len() == 0 {
            return Ok(());
        }
        match self.load_columns(&names, files) {
            Err(e) => {
                return Err(e);
            },
            Ok(_) => {},
        }
        let ghost t1 = *self;
        if !zones_reach(self) {
            return Err(Error::msg("zone columns differ in length"));
        }
        if let Some(index) = ZoneIndex::build(self) {
            self.zones = Some(index);
        }
        proof {
            lemma_same_columns(t1, *self);
        }
        self.drop_columns(&names);
        proof {
            assert(zones_between(t0, t1, *self, files@, names@));
        }
        Ok(())
    }

    /// The declared columns among those that a zone index is built from.
    fn zone_columns(&self) -> (names: Vec<String>)
        ensures
            texts(names@) == zone_names(*self),
    {
        let mut names: Vec<String> = Vec::new();
        if self.column_type("CounterID").is_some() {
            names.push(String::from_str("CounterID"));
        }
        if self.column_type("EventDate").is_some() {
            names.push(String::from_str("EventDate"));
        }
        if self.column_type("AdvEngineID").is_some() {
            names.push(String::from_str("AdvEngineID"));
        }
        if self.column_type("EventTime").is_some() {
            names.push(String::from_str("EventTime"));
        }
        assert(texts(names@) =~= zone_names(*self));
        names
    }
}

/// A declared column's name, or nothing.
pub open spec fn if_declared(t: Table, name: Seq<char>) -> Seq<Seq<char>> {
    if declared_type(t.declared(), name) is Some {
        seq![name]
    } else {
        Seq::empty()
    }
}

/// The declared columns among those that a zone index is built from.
pub open spec fn zone_names(t: Table) -> Seq<Seq<char>> {
    if_declared(t, "CounterID"@) + if_declared(t, "EventDate"@) + if_declared(t, "AdvEngineID"@)
        + if_declared(t, "EventTime"@)
}

/// Whether a table has been given a zone index by way of another, which has the
/// columns in memory that the index is built from.
pub open spec fn zones_between(
    t0: Table,
    t1: Table,
    t2: Table,
    files: Seq<ColumnFile>,
    names: Seq<String>,
) -> bool {
    &&& texts(names) == zone_names(t0)
    &&& loading_fault(t0, files, names) is None
    &&& memory_loaded(t0, t1.memory(), files, names)
    &&& t1.index() == t0.index()
    &&& zone_source(t1) matches Some(src) ==> src.reaches()
    &&& match zone_source(t1) {
        Some(src) if src.rows() > 0 => t2.index() is Some && t2.index()->Some_0.indexes(src),
        _ => t2.index() == t0.index(),
    }
    &&& t2.memory() == t1.memory().remove_keys(name_set(names))
}

/// What building a zone index from files does.
pub open spec fn zones_built(
    t0: Table,
    t2: Table,
    files: Seq<ColumnFile>,
    r: Result<(), Error>,
) -> bool {
    match r {
        Ok(_) => if zone_names(t0).len() == 0 {
            t2 == t0
        } else {
            exists|t1: Table, names: Seq<String>| zones_between(t0, t1, t2, files, names)
        },
        Err(e) => {
            &&& zone_names(t0).len() > 0
            &&& exists|names: Seq<String>|
                {
                    &&& #[trigger] texts(names) == zone_names(t0)
                    &&& match loading_fault(t0, files, names) {
                        Some(m) => e@ == m && t2 == t0,
                        None => {
                            &&& e@ == "zone columns differ in length"@
                            &&& memory_loaded(t0, t2.memory(), files, names)
                            &&& zone_source(t2) matches Some(src) && !src.reaches()
                        },
                    }
                }
        },
    }
}

/// Whether the columns that a zone index is built from reach far enough.
fn zones_reach(table: &Table) -> (r: bool)
    requires
        table.wf(),
    ensures
        r == (zone_source(*table) matches Some(src) ==> src.reaches()),
{
    let counters = match table.column("CounterID") {
        Ok(ColumnData::Int32(v)) => v.len(),
        _ => {
            return true;
        },
    };
    let dates = match table.column("EventDate") {
        Ok(ColumnData::Date(v)) => v.len(),
        _ => {
            return true;
        },
    };
    let rows: usize = if counters <= dates {
        counters
    } else {
        dates
    };
    if let Ok(ColumnData::Int16(v)) = table.column("AdvEngineID") {
        if v.len() < rows {
            return false;
        }
    }
    if let Ok(ColumnData::Timestamp(v)) = table.column("EventTime") {
        if rows > 0 {
            let last: usize = (rows - 1) / ZONE_ROWS;
            assert(last * ZONE_ROWS <= rows - 1);
            if v.len() < last * ZONE_ROWS {
                return false;
            }
        }
    }
    true
}

/// Tables with the same columns in memory.
proof fn lemma_same_columns(a: Table, b: Table)
    requires
        a.columns == b.columns,
        a.wf(),
    ensures
        a.loaded() == b.loaded(),
        a.memory() == b.memory(),
        b.wf(),
{
    assert(a.loaded() =~= b.loaded());
    assert forall|n: Seq<char>, i: int| #[trigger] a.at(n, i) == b.at(n, i) by {}
    assert forall|n: Seq<char>| a.has(n) == b.has(n) by {
        if a.has(n) {
            let i = choose|i: int| a.at(n, i);
            assert(b.at(n, i));
        }
        if b.has(n) {
            let i = choose|i: int| b.at(n, i);
            assert(a.at(n, i));
        }
    }
    assert forall|n: Seq<char>| a.has(n) implies a.memory()[n] == b.memory()[n] by {
        let i = choose|i: int| a.at(n, i);
        assert(b.at(n, i));
        lemma_memory_at(a, n, i);
        lemma_memory_at(b, n, i);
    }
    assert(a.memory() =~= b.memory());
}

/// A column that was read for a table.
spec fn found_ok(t: Table, files: Seq<ColumnFile>, e: (String, ColumnData)) -> bool {
    &&& loadable(t, e.0@)
    &&& file_of(files, e.0@) is Some
    &&& file_holds(file_of(files, e.0@)->Some_0, e.1)
}

/// The names in an optional list.
pub open spec fn names_of(only: Option<&Vec<String>>) -> Option<Seq<String>> {
    match only {
        Some(v) => Some(v@),
        None => None,
    }
}

/// A fault among the first columns is the fault of all.
proof fn lemma_fault_prefix(
    columns: Seq<ColumnMeta>,
    files: Seq<ColumnFile>,
    only: Option<Seq<String>>,
    i: int,
)
    requires
        0 <= i <= columns.len(),
        opening_fault(columns.take(i), files, only) is Some,
    ensures
        opening_fault(columns, files, only) == opening_fault(columns.take(i), files, only),
    decreases columns.len() - i,
{
    if i == columns.len() {
        assert(columns.take(i) =~= columns);
    } else {
        assert(columns.take(i + 1).drop_last() =~= columns.take(i));
        lemma_fault_prefix(columns, files, only, i + 1);
    }
}

/// What is in memory at a place is what is in memory under its name.
proof fn lemma_memory_at(t: Table, name: Seq<char>, i: int)
    requires
        t.wf(),
        t.at(name, i),
    ensures
        t.has(name),
        t.memory().dom().contains(name),
        t.memory()[name] == t.loaded()[i].1,
{
    let k = choose|k: int| t.at(name, k);
    assert(t.at(name, k));
    assert(k == i);
}

/// Whether a table is another with one column replaced.
spec fn replaced(before: Table, after: Table, i: int, data: ColumnData) -> bool {
    &&& 0 <= i < before.columns@.len()
    &&& after.columns@.len() == before.columns@.len()
    &&& forall|k: int|
        0 <= k < before.columns@.len() && k != i ==> #[trigger] after.columns@[k]
            == before.columns@[k]
    &&& after.columns@[i].0@ == before.columns@[i].0@
    &&& after.columns@[i].1 == data
}

proof fn lemma_replaced(before: Table, after: Table, i: int, name: Seq<char>, data: ColumnData)
    requires
        before.wf(),
        before.at(name, i),
        replaced(before, after, i, data),
    ensures
        data.wf() ==> after.wf(),
        after.memory() == before.memory().insert(name, data),
{
    assert forall|k: int| 0 <= k < after.loaded().len() && k != i implies #[trigger] after.loaded()[k]
        == before.loaded()[k] by {
        assert(after.columns@[k] == before.columns@[k]);
    }
    assert(after.loaded()[i] == (name, data));
    assert forall|a: int, b: int| 0 <= a < b < after.loaded().len() implies (
    #[trigger] after.loaded()[a]).0 != (#[trigger] after.loaded()[b]).0 by {
        assert(before.loaded()[a].0 != before.loaded()[b].0);
        assert(after.loaded()[a].0 == before.loaded()[a].0);
        assert(after.loaded()[b].0 == before.loaded()[b].0);
    }
    let m = after.memory();
    let w = before.memory().insert(name, data);
    assert forall|n: Seq<char>| m.dom().contains(n) <==> w.dom().contains(n) by {
        if m.dom().contains(n) {
            let k = choose|k: int| after.at(n, k);
            assert(before.at(n, k));
        }
        if w.dom().contains(n) {
            if n == name {
                assert(after.at(n, i));
            } else {
                let k = choose|k: int| before.at(n, k);
                assert(after.at(n, k));
            }
        }
    }
    assert forall|n: Seq<char>| m.dom().contains(n) implies m[n] == w[n] by {
        let k = choose|k: int| after.at(n, k);
        assert(before.at(n, k));
        if n == name {
            assert(k == i);
        } else {
            lemma_memory_at(before, n, k);
        }
    }
    assert(m =~= w);
}

proof fn lemma_pushed(before: Table, after: Table, name: Seq<char>, data: ColumnData)
    requires
        before.wf(),
        !before.has(name),
        after.columns@.len() == before.columns@.len() + 1,
        after.columns@.drop_last() == before.columns@,
        after.columns@.last().0@ == name,
        after.columns@.last().1 == data,
    ensures
        data.wf() ==> after.wf(),
        after.memory() == before.memory().insert(name, data),
{
    let last = before.columns@.len() as int;
    assert forall|k: int| 0 <= k < last implies #[trigger] after.loaded()[k]
        == before.loaded()[k] by {
        assert(after.columns@.drop_last()[k] == before.columns@[k]);
    }
    assert(after.loaded()[last] == (name, data));
    assert forall|k: int| 0 <= k < last implies (#[trigger] before.loaded()[k]).0 != name by {
        if before.loaded()[k].0 == name {
            assert(before.at(name, k));
        }
    }
    assert forall|a: int, b: int| 0 <= a < b < after.loaded().len() implies (
    #[trigger] after.loaded()[a]).0 != (#[trigger] after.loaded()[b]).0 by {
        assert(before.loaded()[a].0 != name);
        if b < last {
            assert(before.loaded()[a].0 != before.loaded()[b].0);
        }
    }
    let m = after.memory();
    let w = before.memory().insert(name, data);
    assert forall|n: Seq<char>| m.dom().contains(n) <==> w.dom().contains(n) by {
        if m.dom().contains(n) {
            let k = choose|k: int| after.at(n, k);
            if k < last {
                assert(before.at(n, k));
            }
        }
        if w.dom().contains(n) {
            if n == name {
                assert(after.at(n, last));
            } else {
                let k = choose|k: int| before.at(n, k);
                assert(after.at(n, k));
            }
        }
    }
    assert forall|n: Seq<char>| m.dom().contains(n) implies m[n] == w[n] by {
        let k = choose|k: int| after.at(n, k);
        if k < last {
            assert(before.at(n, k));
            lemma_memory_at(before, n, k);
        }
    }
    assert(m =~= w);
}

proof fn lemma_removed(before: Table, after: Table, i: int, name: Seq<char>)
    requires
        before.wf(),
        before.at(name, i),
        after.columns@ == before.columns@.remove(i),
    ensures
        after.wf(),
        after.memory() == before.memory().remove(name),
{
    assert forall|k: int| 0 <= k < after.loaded().len() implies #[trigger] after.loaded()[k]
        == before.loaded()[if k < i {
        k
    } else {
        k + 1
    }] by {}
    assert forall|a: int, b: int| 0 <= a < b < after.loaded().len() implies (
    #[trigger] after.loaded()[a]).0 != (#[trigger] after.loaded()[b]).0 by {
        let x = if a < i {
            a
        } else {
            a + 1
        };
        let y = if b < i {
            b
        } else {
            b + 1
        };
        assert(before.loaded()[x].0 != before.loaded()[y].0);
    }
    let m = after.memory();
    let w = before.memory().remove(name);
    assert forall|n: Seq<char>| m.dom().contains(n) <==> w.dom().contains(n) by {
        if m.dom().contains(n) {
            let k = choose|k: int| after.at(n, k);
            let x = if k < i {
                k
            } else {
                k + 1
            };
            assert(before.at(n, x));
            if n == name {
                assert(before.loaded()[x].0 == before.loaded()[i].0);
            }
        }
        if w.dom().contains(n) {
            let k = choose|k: int| before.at(n, k);
            assert(k != i);
            let x = if k < i {
                k
            } else {
                k - 1
            };
            assert(after.loaded()[x] == before.loaded()[k]);
            assert(after.at(n, x));
        }
    }
    assert forall|n: Seq<char>| m.dom().contains(n) implies m[n] == w[n] by {
        let k = choose|k: int| after.at(n, k);
        let x = if k < i {
            k
        } else {
            k + 1
        };
        assert(before.at(n, x));
        lemma_memory_at(before, n, x);
    }
    assert(m =~= w);
}

/// The names of columns.
pub open spec fn declared_names(columns: Seq<ColumnMeta>) -> Seq<Seq<char>> {
    Seq::new(columns.len(), |i: int| columns[i].name@)
}

/// The type of the first column with a name.
pub open spec fn declared_type(columns: Seq<ColumnMeta>, name: Seq<char>) -> Option<ColumnType>
    decreases columns.len(),
{
    if columns.len() == 0 {
        None
    } else if columns[0].name@ == name {
        Some(columns[0].ty)
    } else {
        declared_type(columns.skip(1), name)
    }
}

/// A list of names as a set.
pub open spec fn name_set(names: Seq<String>) -> Set<Seq<char>> {
    Set::new(|n: Seq<char>| texts(names).contains(n))
}

proof fn lemma_name_set(names: Seq<String>, i: int)
    requires
        0 <= i < names.len(),
    ensures
        name_set(names.take(i + 1)) =~= name_set(names.take(i)).insert(names[i]@),
{
    let a = texts(names.take(i));
    let b = texts(names.take(i + 1));
    assert(b =~= a.push(names[i]@));
    assert forall|n: Seq<char>| b.contains(n) <==> a.contains(n) || n == names[i]@ by {
        if a.contains(n) {
            let k = choose|k: int| 0 <= k < a.len() && a[k] == n;
            assert(b[k] == n);
        }
        if n == names[i]@ {
            assert(b[i] == n);
        }
    }
}

pub proof fn lemma_name_set_holds(names: Seq<String>, n: Seq<char>)
    ensures
        name_set(names).contains(n) <==> holds(names, n),
{
    if name_set(names).contains(n) {
        let k = choose|k: int| 0 <= k < texts(names).len() && texts(names)[k] == n;
        assert(names[k]@ == n);
    }
    if holds(names, n) {
        let k = choose|k: int| 0 <= k < names.len() && (#[trigger] names[k])@ == n;
        assert(texts(names)[k] == n);
    }
}

} // verus!
