use vstd::prelude::*;
use vstd::string::StringExecFns;
use crate::model::{
    Entity, Table, TableView, Type, find_attr, find_attr_from, find_value, find_value_from,
    lemma_find_attr_spec,
};
use crate::codec::{decode_column, decode_values, encode_value, width};
use crate::model::{Attr, CellValue, Condition, Data, EntityView, Value, entities_view};
use crate::query::{match_all};
use crate::text::str_eq;
use crate::messages::{
    drop_missing_msg, missing_attr_msg, no_table_msg, table_exists_msg, type_mismatch_msg,
    unknown_attr_msg, unreachable_msg, msg_unreachable, not_found_msg, msg_not_found,
    attr_not_in_table_msg, write_mismatch_msg, msg_no_table, msg_attr_not_in_table,
};
use crate::semantics::{
    append_file, check_attrs, check_known, create_files, create_table_result,
    drop_table_result, insert_result, lemma_check_known, status, store_data,
    tables_without, type_matches, validate, Loaded, load_columns, prepend_columns, row_entity,
    rows_in_range, row_count, first_unknown, project, select_rows, names_view, select_defined,
    select_result, rows_status, rows_readable, write_one, write_columns, delete_result,
    count_status, count_matches, kept_values, row_matches, lemma_count_matches, update_result,
    updates_view, first_unknown_update, last_update_for, updated_values, };
use crate::model::has_attr;
use crate::laws::{law_write_then_read_column, normalized_all, stable};

verus! {

/// The bytes of one column file: the file of column `attr` of table `table`.
struct ColumnFile {
    table: String,
    attr: String,
    bytes: Vec<u8>,
}

/// The key of a column file: (table name, column name).
pub type FileKey = (Seq<char>, Seq<char>);

/// The mathematical state of an engine: its tables, in order, and the
/// contents of its column files, by key.
pub struct EngineView {
    pub tables: Seq<TableView>,
    pub files: Map<FileKey, Seq<u8>>,
}

/// The database engine: the schema of its tables and the bytes of the
/// column files in which their rows are stored, one file per column.
pub struct Engine {
    tables: Vec<Table>,
    files: Vec<ColumnFile>,
}

spec fn file_key(f: ColumnFile) -> FileKey {
    (f.table@, f.attr@)
}

/// The files of `fs` by key; where two entries share a key, the first counts.
spec fn files_view(fs: Seq<ColumnFile>) -> Map<FileKey, Seq<u8>>
    decreases fs.len(),
{
    if fs.len() == 0 {
        Map::empty()
    } else {
        let m = files_view(fs.drop_last());
        let f = fs.last();
        if m.contains_key(file_key(f)) {
            m
        } else {
            m.insert(file_key(f), f.bytes@)
        }
    }
}

spec fn is_first_file(fs: Seq<ColumnFile>, k: FileKey, i: int) -> bool {
    &&& 0 <= i < fs.len()
    &&& file_key(fs[i]) == k
    &&& forall|j: int| 0 <= j < i ==> file_key(#[trigger] fs[j]) != k
}

proof fn lemma_files_view_lookup(fs: Seq<ColumnFile>, k: FileKey)
    ensures
        files_view(fs).contains_key(k) <==> exists|i: int|
            0 <= i < fs.len() && file_key(#[trigger] fs[i]) == k,
        forall|i: int| is_first_file(fs, k, i) ==> files_view(fs)[k] == fs[i].bytes@,
    decreases fs.len(),
{
    if fs.len() > 0 {
        let init = fs.drop_last();
        lemma_files_view_lookup(init, k);
        if exists|i: int| 0 <= i < init.len() && file_key(#[trigger] init[i]) == k {
            let i = choose|i: int| 0 <= i < init.len() && file_key(#[trigger] init[i]) == k;
            assert(fs[i] == init[i]);
        }
        if exists|i: int| 0 <= i < fs.len() && file_key(#[trigger] fs[i]) == k {
            let i = choose|i: int| 0 <= i < fs.len() && file_key(#[trigger] fs[i]) == k;
            if i < fs.len() - 1 {
                assert(init[i] == fs[i]);
            }
        }
        assert forall|i: int| is_first_file(fs, k, i) implies files_view(fs)[k] == fs[i].bytes@ by {
            if i < fs.len() - 1 {
                assert(is_first_file(init, k, i)) by {
                    assert forall|j: int| 0 <= j < i implies file_key(#[trigger] init[j]) != k by {
                        assert(init[j] == fs[j]);
                    }
                }
            } else {
                assert forall|j: int| 0 <= j < init.len() implies file_key(#[trigger] init[j])
                    != k by {
                    assert(init[j] == fs[j]);
                }
            }
        }
    }
}

proof fn lemma_files_view_update(fs: Seq<ColumnFile>, i: int, f: ColumnFile)
    requires
        is_first_file(fs, file_key(f), i),
    ensures
        files_view(fs.update(i, f)) == files_view(fs).insert(file_key(f), f.bytes@),
    decreases fs.len(),
{
    let gs = fs.update(i, f);
    let k = file_key(f);
    if i == fs.len() - 1 {
        assert(gs.drop_last() =~= fs.drop_last());
        lemma_files_view_lookup(fs.drop_last(), k);
        assert forall|j: int| 0 <= j < fs.len() - 1 implies file_key(#[trigger] fs.drop_last()[j])
            != k by {
            assert(fs.drop_last()[j] == fs[j]);
        }
        assert(files_view(gs) =~= files_view(fs).insert(k, f.bytes@));
    } else {
        let init = fs.drop_last();
        assert(gs.drop_last() =~= init.update(i, f));
        assert(is_first_file(init, k, i)) by {
            assert forall|j: int| 0 <= j < i implies file_key(#[trigger] init[j]) != k by {
                assert(init[j] == fs[j]);
            }
        }
        lemma_files_view_update(init, i, f);
        lemma_files_view_lookup(init, k);
        assert(init[i] == fs[i]);
        assert(files_view(gs) =~= files_view(fs).insert(k, f.bytes@));
    }
}

proof fn lemma_files_view_push(fs: Seq<ColumnFile>, f: ColumnFile)
    ensures
        files_view(fs.push(f)) == (if files_view(fs).contains_key(file_key(f)) {
            files_view(fs)
        } else {
            files_view(fs).insert(file_key(f), f.bytes@)
        }),
{
    assert(fs.push(f).drop_last() =~= fs);
}

/// The views of a sequence of tables.
pub open spec fn tables_view(ts: Seq<Table>) -> Seq<TableView> {
    ts.map_values(|t: Table| t@)
}

impl View for Engine {
    type V = EngineView;

    closed spec fn view(&self) -> EngineView {
        EngineView { tables: tables_view(self.tables@), files: files_view(self.files@) }
    }
}

/// The index of the first table of `tables` named `name`, searching from `i` on.
pub open spec fn find_table_from(tables: Seq<TableView>, name: Seq<char>, i: int) -> Option<int>
    decreases tables.len() - i,
{
    if i < 0 || i >= tables.len() {
        None
    } else if tables[i].name == name {
        Some(i)
    } else {
        find_table_from(tables, name, i + 1)
    }
}

/// The index of the first table of `tables` named `name`.
pub open spec fn find_table(tables: Seq<TableView>, name: Seq<char>) -> Option<int> {
    find_table_from(tables, name, 0)
}

/// Whether some table of `tables` is named `name`.
pub open spec fn has_table(tables: Seq<TableView>, name: Seq<char>) -> bool {
    exists|i: int| 0 <= i < tables.len() && #[trigger] tables[i].name == name
}

pub proof fn lemma_find_table_from_spec(tables: Seq<TableView>, name: Seq<char>, i: int)
    requires
        0 <= i <= tables.len(),
    ensures
        find_table_from(tables, name, i) matches Some(j) ==> i <= j < tables.len()
            && tables[j].name == name && forall|k: int| i <= k < j ==> tables[k].name != name,
        find_table_from(tables, name, i) is None ==> forall|k: int|
            i <= k < tables.len() ==> tables[k].name != name,
    decreases tables.len() - i,
{
    if i < tables.len() {
        lemma_find_table_from_spec(tables, name, i + 1);
    }
}

pub proof fn lemma_find_table_spec(tables: Seq<TableView>, name: Seq<char>)
    ensures
        find_table(tables, name) matches Some(j) ==> 0 <= j < tables.len() && tables[j].name
            == name,
        find_table(tables, name) is None <==> !has_table(tables, name),
{
    lemma_find_table_from_spec(tables, name, 0);
}

impl Engine {
    /// An engine with no tables and no column files.
    pub fn new() -> (r: Engine)
        ensures
            r@.tables == Seq::<TableView>::empty(),
            r@.files == Map::<FileKey, Seq<u8>>::empty(),
    {
        let r = Engine { tables: Vec::new(), files: Vec::new() };
        assert(r@.tables =~= Seq::<TableView>::empty());
        r
    }

    /// An engine with the given schema and no column files yet.
    pub fn from_schema(tables: Vec<Table>) -> (r: Engine)
        ensures
            r@.tables == tables_view(tables@),
            r@.files == Map::<FileKey, Seq<u8>>::empty(),
    {
        Engine { tables, files: Vec::new() }
    }

    /// The tables of the schema, in order.
    pub fn tables(&self) -> (r: &Vec<Table>)
        ensures
            tables_view(r@) == self@.tables,
    {
        &self.tables
    }

    fn find_file(&self, table: &str, attr: &str) -> (r: Option<usize>)
        ensures
            match r {
                Some(i) => is_first_file(self.files@, (table@, attr@), i as int),
                None => forall|j: int|
                    0 <= j < self.files@.len() ==> file_key(#[trigger] self.files@[j]) != (
                        table@,
                        attr@,
                    ),
            },
    {
        let mut i: usize = 0;
        while i < self.files.len()
            invariant
                i <= self.files@.len(),
                forall|j: int|
                    0 <= j < i ==> file_key(#[trigger] self.files@[j]) != (table@, attr@),
            decreases self.files@.len() - i,
        {
            if str_eq(self.files[i].table.as_str(), table) && str_eq(
                self.files[i].attr.as_str(),
                attr,
            ) {
                return Some(i);
            }
            i = i + 1;
        }
        None
    }

    /// The bytes of the file of column `attr` of table `table`, where it exists.
    pub fn column_file(&self, table: &str, attr: &str) -> (r: Option<&Vec<u8>>)
        ensures
            match r {
                Some(b) => self@.files.contains_key((table@, attr@)) && self@.files[(table@, attr@)]
                    == b@,
                None => !self@.files.contains_key((table@, attr@)),
            },
    {
        proof {
            lemma_files_view_lookup(self.files@, (table@, attr@));
        }
        match self.find_file(table, attr) {
            Some(i) => Some(&self.files[i].bytes),
            None => None,
        }
    }

    /// Sets the bytes of the file of column `attr` of table `table`, creating
    /// the file where it does not exist.
    pub fn load_file(&mut self, table: &str, attr: &str, bytes: Vec<u8>)
        ensures
            final(self)@.tables == old(self)@.tables,
            final(self)@.files == old(self)@.files.insert((table@, attr@), bytes@),
    {
        let f = ColumnFile { table: String::from_str(table), attr: String::from_str(attr), bytes };
        match self.find_file(table, attr) {
            Some(i) => {
                proof {
                    lemma_files_view_update(self.files@, i as int, f);
                }
                self.files.set(i, f);
            },
            None => {
                proof {
                    lemma_files_view_lookup(self.files@, (table@, attr@));
                    lemma_files_view_push(self.files@, f);
                }
                self.files.push(f);
            },
        }
    }
}


impl Engine {
    /// Whether some table of the schema is named `name`.
    fn table_exists(&self, name: &str) -> (r: bool)
        ensures
            r == has_table(self@.tables, name@),
    {
        let mut i: usize = 0;
        while i < self.tables.len()
            invariant
                i <= self.tables@.len(),
                forall|k: int| 0 <= k < i ==> self.tables@[k].name@ != name@,
            decreases self.tables@.len() - i,
        {
            if str_eq(self.tables[i].name.as_str(), name) {
                assert(self@.tables[i as int].name == name@);
                return true;
            }
            i = i + 1;
        }
        assert forall|k: int| 0 <= k < self@.tables.len() implies #[trigger] self@.tables[k].name
            != name@ by {
            assert(self@.tables[k] == self.tables@[k]@);
        }
        false
    }

    /// The first table of the schema named `name`.
    fn get_table(&self, name: &str) -> (r: Option<&Table>)
        ensures
            match r {
                Some(t) => find_table(self@.tables, name@) matches Some(i) && t@
                    == self@.tables[i],
                None => find_table(self@.tables, name@) is None,
            },
    {
        let mut i: usize = 0;
        while i < self.tables.len()
            invariant
                i <= self.tables@.len(),
                find_table(self@.tables, name@) == find_table_from(self@.tables, name@, i as int),
            decreases self.tables@.len() - i,
        {
            assert(self@.tables[i as int] == self.tables@[i as int]@);
            if str_eq(self.tables[i].name.as_str(), name) {
                return Some(&self.tables[i]);
            }
            i = i + 1;
        }
        None
    }

    /// Creates table `table`: its schema entry and an empty file for each of
    /// its columns.  Refused where a table of that name exists.
    pub fn create_table(&mut self, table: &Table) -> (r: Result<(), String>)
        ensures
            (final(self)@, status(r)) == create_table_result(old(self)@, table@),
    {
        if self.table_exists(table.name.as_str()) {
            return Err(table_exists_msg(table.name.as_str()));
        }
        let mut i: usize = 0;
        assert(table@.attrs.subrange(0, 0) =~= Seq::<(Seq<char>, Type)>::empty());
        while i < table.attrs.len()
            invariant
                i <= table.attrs@.len(),
                self@.tables == old(self)@.tables,
                self@.files == create_files(
                    old(self)@.files,
                    table@.name,
                    table@.attrs.subrange(0, i as int),
                ),
            decreases table.attrs@.len() - i,
        {
            self.load_file(table.name.as_str(), table.attrs[i].name.as_str(), Vec::new());
            assert(table@.attrs.subrange(0, i + 1).drop_last() =~= table@.attrs.subrange(
                0,
                i as int,
            ));
            assert(table@.attrs[i as int] == table.attrs@[i as int]@);
            i = i + 1;
        }
        assert(table@.attrs.subrange(0, i as int) =~= table@.attrs);
        let t = table.duplicate();
        self.tables.push(t);
        assert(self@.tables =~= old(self)@.tables.push(table@));
        Ok(())
    }

    /// Drops table `name`: every schema entry of that name and every file of
    /// it.  Refused where no table has that name.
    pub fn drop_table(&mut self, table_name: &str) -> (r: Result<(), String>)
        ensures
            (final(self)@, status(r)) == drop_table_result(old(self)@, table_name@),
    {
        if !self.table_exists(table_name) {
            return Err(drop_missing_msg(table_name));
        }
        let mut tables: Vec<Table> = Vec::new();
        let mut i: usize = 0;
        while i < self.tables.len()
            invariant
                i <= self.tables@.len(),
                self.tables == old(self).tables,
                tables_view(tables@) == tables_without(
                    tables_view(self.tables@.subrange(0, i as int)),
                    table_name@,
                ),
            decreases self.tables@.len() - i,
        {
            assert(tables_view(self.tables@.subrange(0, i + 1)).drop_last() =~= tables_view(
                self.tables@.subrange(0, i as int),
            ));
            if !str_eq(self.tables[i].name.as_str(), table_name) {
                let t = self.tables[i].duplicate();
                let ghost before = tables@;
                tables.push(t);
                assert(tables_view(tables@) =~= tables_view(before).push(self.tables@[i as int]@));
            }
            i = i + 1;
        }
        assert(self.tables@.subrange(0, i as int) =~= self.tables@);
        let mut files: Vec<ColumnFile> = Vec::new();
        let mut j: usize = 0;
        let ghost keep = Set::new(|k: FileKey| k.0 != table_name@);
        assert(files_view(self.files@.subrange(0, 0)) =~= Map::<FileKey, Seq<u8>>::empty());
        assert(files_view(files@) =~= files_view(self.files@.subrange(0, 0)).restrict(keep));
        while j < self.files.len()
            invariant
                j <= self.files@.len(),
                self.files == old(self).files,
                keep == Set::new(|k: FileKey| k.0 != table_name@),
                files_view(files@) == files_view(self.files@.subrange(0, j as int)).restrict(keep),
            decreases self.files@.len() - j,
        {
            let ghost pre = self.files@.subrange(0, j as int);
            let ghost f = self.files@[j as int];
            assert(self.files@.subrange(0, j + 1) =~= pre.push(f));
            proof {
                lemma_files_view_push(pre, f);
            }
            if !str_eq(self.files[j].table.as_str(), table_name) {
                let g = ColumnFile {
                    table: self.files[j].table.clone(),
                    attr: self.files[j].attr.clone(),
                    bytes: self.files[j].bytes.clone(),
                };
                proof {
                    lemma_files_view_push(files@, g);
                }
                files.push(g);
                assert(files_view(files@) =~= files_view(self.files@.subrange(0, j + 1)).restrict(
                    keep,
                ));
            } else {
                assert(files_view(files@) =~= files_view(self.files@.subrange(0, j + 1)).restrict(
                    keep,
                ));
            }
            j = j + 1;
        }
        assert(self.files@.subrange(0, j as int) =~= self.files@);
        self.tables = tables;
        self.files = files;
        Ok(())
    }
}


impl Engine {
    /// Checks that `entity` may be inserted into `table`: every column has a
    /// value of its type, and no value names an unknown column.
    fn validate_entity_data(&self, table: &Table, entity: &Entity) -> (r: Result<(), String>)
        ensures
            status(r) == validate(table@, entity@.data),
    {
        let ghost attrs = table@.attrs;
        let ghost data = entity@.data;
        let mut i: usize = 0;
        assert(attrs.subrange(0, attrs.len() as int) =~= attrs);
        while i < table.attrs.len()
            invariant
                attrs == table@.attrs,
                data == entity@.data,
                i <= attrs.len(),
                check_attrs(attrs, data) == check_attrs(
                    attrs.subrange(i as int, attrs.len() as int),
                    data,
                ),
            decreases attrs.len() - i,
        {
            let attr = &table.attrs[i];
            assert(attrs[i as int] == attr@);
            assert(attrs.subrange(i as int, attrs.len() as int)[0] == attr@);
            assert(attrs.subrange(i as int, attrs.len() as int).drop_first() =~= attrs.subrange(
                i + 1,
                attrs.len() as int,
            ));
            let found = Self::data_index(entity, &attr.name);
            match found {
                None => {
                    return Err(missing_attr_msg(attr.name.as_str()));
                },
                Some(j) => {
                    let d = &entity.data[j];
                    assert(data[j as int] == d@);
                    assert(find_value(data, attr.name@) == Some(d.value@));
                    let ok = match (attr.data_type, &d.value) {
                        (Type::Int, crate::model::Value::Int(_)) => true,
                        (Type::VarChar(_), crate::model::Value::VarChar(_)) => true,
                        _ => false,
                    };
                    assert(ok == type_matches(attr.data_type, d.value@));
                    if !ok {
                        return Err(
                            type_mismatch_msg(attr.name.as_str(), attr.data_type, &d.value),
                        );
                    }
                },
            }
            i = i + 1;
        }
        assert(check_attrs(attrs.subrange(i as int, attrs.len() as int), data) == Ok::<(), Seq<char>>(()));
        let mut k: usize = 0;
        assert(data.subrange(0, data.len() as int) =~= data);
        while k < entity.data.len()
            invariant
                attrs == table@.attrs,
                data == entity@.data,
                k <= data.len(),
                check_attrs(attrs, data) == Ok::<(), Seq<char>>(()),
                check_known(attrs, data) == check_known(
                    attrs,
                    data.subrange(k as int, data.len() as int),
                ),
            decreases data.len() - k,
        {
            let d = &entity.data[k];
            assert(data[k as int] == d@);
            assert(data.subrange(k as int, data.len() as int)[0] == d@);
            assert(data.subrange(k as int, data.len() as int).drop_first() =~= data.subrange(
                k + 1,
                data.len() as int,
            ));
            if !table.attr_exists(d.name.as_str()) {
                return Err(unknown_attr_msg(d.name.as_str()));
            }
            k = k + 1;
        }
        assert(check_known(attrs, data.subrange(k as int, data.len() as int)) == Ok::<(), Seq<char>>(()));
        Ok(())
    }

    /// The index of the first value of `entity` named `name`.
    fn data_index(entity: &Entity, name: &String) -> (r: Option<usize>)
        ensures
            match r {
                Some(j) => j < entity.data@.len() && entity.data@[j as int].name@ == name@
                    && find_value(entity@.data, name@) == Some(entity.data@[j as int].value@),
                None => find_value(entity@.data, name@) is None,
            },
    {
        let ghost data = entity@.data;
        let mut j: usize = 0;
        while j < entity.data.len()
            invariant
                data == entity@.data,
                j <= data.len(),
                find_value(data, name@) == find_value_from(data, name@, j as int),
            decreases data.len() - j,
        {
            assert(data[j as int] == entity.data@[j as int]@);
            if entity.data[j].name == *name {
                return Some(j);
            }
            j = j + 1;
        }
        None
    }

    /// The index of the first column of `table` named `name`.
    fn attr_index(table: &Table, name: &String) -> (r: Option<usize>)
        ensures
            match r {
                Some(i) => find_attr(table@.attrs, name@) == Some(i as int),
                None => find_attr(table@.attrs, name@) is None,
            },
    {
        let mut i: usize = 0;
        while i < table.attrs.len()
            invariant
                i <= table@.attrs.len(),
                find_attr(table@.attrs, name@) == find_attr_from(table@.attrs, name@, i as int),
            decreases table@.attrs.len() - i,
        {
            assert(table@.attrs[i as int] == table.attrs@[i as int]@);
            if table.attrs[i].name == *name {
                return Some(i);
            }
            i = i + 1;
        }
        None
    }

    /// Appends `bytes` to the file of column `attr` of table `table`, creating
    /// the file where it is missing.
    fn append_to_file(&mut self, table: &str, attr: &str, bytes: &Vec<u8>)
        ensures
            final(self)@.tables == old(self)@.tables,
            final(self)@.files == append_file(old(self)@.files, (table@, attr@), bytes@),
    {
        let mut cur: Vec<u8> = match self.column_file(table, attr) {
            Some(b) => b.clone(),
            None => Vec::new(),
        };
        let ghost before = cur@;
        cur.extend_from_slice(bytes.as_slice());
        assert(cur@ =~= before + bytes@);
        self.load_file(table, attr, cur);
        assert(self@.files =~= append_file(old(self)@.files, (table@, attr@), bytes@));
    }

    /// Inserts row `entity` into its table: each value is appended to the file
    /// of its column.  Refused where the table does not exist or the row does
    /// not validate.
    pub fn insert(&mut self, entity: &Entity) -> (r: Result<(), String>)
        ensures
            (final(self)@, status(r)) == insert_result(old(self)@, entity@),
    {
        let table = match self.get_table(entity.of.as_str()) {
            Some(t) => t.duplicate(),
            None => {
                return Err(no_table_msg(entity.of.as_str()));
            },
        };
        match self.validate_entity_data(&table, entity) {
            Err(m) => {
                return Err(m);
            },
            Ok(()) => {},
        }
        let ghost data = entity@.data;
        let ghost tv = table@;
        proof {
            lemma_check_known(tv.attrs, data);
        }
        let mut i: usize = 0;
        assert(data.subrange(0, data.len() as int) =~= data);
        while i < entity.data.len()
            invariant
                data == entity@.data,
                tv == table@,
                i <= data.len(),
                self@.tables == old(self)@.tables,
                forall|j: int| 0 <= j < data.len() ==> has_attr(tv.attrs, #[trigger] data[j].0),
                insert_result(old(self)@, entity@) == (
                    EngineView {
                        tables: old(self)@.tables,
                        files: store_data(old(self)@.files, tv, data).0,
                    },
                    store_data(old(self)@.files, tv, data).1,
                ),
                store_data(old(self)@.files, tv, data) == store_data(
                    self@.files,
                    tv,
                    data.subrange(i as int, data.len() as int),
                ),
            decreases data.len() - i,
        {
            let d = &entity.data[i];
            let ghost rest = data.subrange(i as int, data.len() as int);
            assert(data[i as int] == d@);
            assert(rest[0] == d@);
            assert(rest.drop_first() =~= data.subrange(i + 1, data.len() as int));
            assert(has_attr(tv.attrs, d.name@));
            proof {
                lemma_find_attr_spec(tv.attrs, d.name@);
            }
            let ai = match Self::attr_index(&table, &d.name) {
                Some(ai) => ai,
                None => {
                    return Err(unreachable_msg());
                },
            };
            assert(tv.attrs[ai as int] == table.attrs@[ai as int]@);
            match encode_value(table.attrs[ai].data_type, &d.value) {
                None => {
                    assert(store_data(self@.files, tv, rest) == (self@.files, Err::<(), Seq<char>>(msg_unreachable())));
                    return Err(unreachable_msg());
                },
                Some(b) => {
                    self.append_to_file(table.name.as_str(), d.name.as_str(), &b);
                },
            }
            i = i + 1;
        }
        assert(store_data(self@.files, tv, data.subrange(i as int, data.len() as int)) == (
        self@.files, Ok::<(), Seq<char>>(())));
        Ok(())
    }
}


/// The views of loaded columns.
pub open spec fn columns_view(cs: Seq<Vec<Value>>) -> Seq<Seq<CellValue>> {
    cs.map_values(|c: Vec<Value>| c@.map_values(|v: Value| v@))
}

/// Whether `name` is one of `names`.
fn names_contain(names: &Vec<&str>, name: &str) -> (r: bool)
    ensures
        r == names_view(names@).contains(name@),
{
    let mut i: usize = 0;
    while i < names.len()
        invariant
            i <= names@.len(),
            forall|k: int| 0 <= k < i ==> names@[k]@ != name@,
        decreases names@.len() - i,
    {
        if str_eq(names[i], name) {
            assert(names_view(names@)[i as int] == name@);
            return true;
        }
        i = i + 1;
    }
    assert forall|k: int| 0 <= k < names_view(names@).len() implies names_view(names@)[k] != name@ by {
        assert(names_view(names@)[k] == names@[k]@);
    }
    false
}

impl Engine {
    /// Reads the values of column `attr` of `table` from its file.  Refused
    /// where the schema has no table of that name or the table no such column.
    pub fn load_column(&self, table: &Table, attr: &Attr) -> (r: Result<Vec<Value>, String>)
        requires
            has_table(self@.tables, table@.name) && has_attr(table@.attrs, attr.name@)
                && self@.files.contains_key((table@.name, attr.name@)) ==> width(attr.data_type)
                > 0,
        ensures
            !has_table(self@.tables, table@.name) ==> (r matches Err(m) && m@ == msg_no_table(
                table@.name,
            )),
            has_table(self@.tables, table@.name) && !has_attr(table@.attrs, attr.name@) ==> (
            r matches Err(m) && m@ == msg_attr_not_in_table(attr.name@, table@.name)),
            has_table(self@.tables, table@.name) && has_attr(table@.attrs, attr.name@) ==> match r {
                Ok(vs) => self@.files.contains_key((table@.name, attr.name@))
                    && vs@.map_values(|v: Value| v@) == decode_column(
                    attr.data_type,
                    self@.files[(table@.name, attr.name@)],
                ),
                Err(m) => !self@.files.contains_key((table@.name, attr.name@)) && m@
                    == msg_not_found(),
            },
    {
        if !self.table_exists(table.name.as_str()) {
            return Err(no_table_msg(table.name.as_str()));
        }
        if !table.attr_exists(attr.name.as_str()) {
            return Err(attr_not_in_table_msg(attr.name.as_str(), table.name.as_str()));
        }
        match self.column_file(table.name.as_str(), attr.name.as_str()) {
            None => Err(not_found_msg()),
            Some(bytes) => Ok(decode_values(attr.data_type, bytes.as_slice())),
        }
    }

    /// Reads the values of every column of `table`, in order; stops at the
    /// first missing file.
    fn load_columns(&self, table: &Table) -> (r: Result<Vec<Vec<Value>>, String>)
        requires
            has_table(self@.tables, table@.name),
            !(load_columns(self@.files, table@.name, table@.attrs) is Diverges),
        ensures
            match r {
                Ok(cs) => load_columns(self@.files, table@.name, table@.attrs) == Loaded::Columns(
                    columns_view(cs@),
                ),
                Err(m) => load_columns(self@.files, table@.name, table@.attrs) == Loaded::Failed(
                    m@,
                ),
            },
    {
        let ghost attrs = table@.attrs;
        let ghost files = self@.files;
        let mut cols: Vec<Vec<Value>> = Vec::new();
        let mut i: usize = 0;
        assert(attrs.subrange(0, attrs.len() as int) =~= attrs);
        assert(columns_view(cols@) + Seq::<Seq<CellValue>>::empty() =~= columns_view(cols@));
        while i < table.attrs.len()
            invariant
                attrs == table@.attrs,
                files == self@.files,
                has_table(self@.tables, table@.name),
                !(load_columns(files, table@.name, attrs) is Diverges),
                i <= attrs.len(),
                load_columns(files, table@.name, attrs) == prepend_columns(
                    columns_view(cols@),
                    load_columns(files, table@.name, attrs.subrange(i as int, attrs.len() as int)),
                ),
            decreases attrs.len() - i,
        {
            let attr = &table.attrs[i];
            let ghost rest = attrs.subrange(i as int, attrs.len() as int);
            assert(attrs[i as int] == attr@);
            assert(rest[0] == attr@);
            assert(rest.drop_first() =~= attrs.subrange(i + 1, attrs.len() as int));
            assert(has_attr(attrs, attr.name@)) by {
                assert(attrs[i as int].0 == attr.name@);
            }
            match self.load_column(table, attr) {
                Err(m) => {
                    return Err(m);
                },
                Ok(vs) => {
                    let ghost before = columns_view(cols@);
                    let ghost col = vs@.map_values(|v: Value| v@);
                    cols.push(vs);
                    assert(columns_view(cols@) =~= before.push(col));
                    proof {
                        match load_columns(files, table@.name, attrs.subrange(i + 1, attrs.len() as int)) {
                            Loaded::Columns(r) => {
                                assert(before.push(col) + r =~= before + (seq![col] + r));
                            },
                            _ => {},
                        }
                    }
                },
            }
            i = i + 1;
        }
        assert(columns_view(cols@) + Seq::<Seq<CellValue>>::empty() =~= columns_view(cols@));
        Ok(cols)
    }

    /// Row `row` of `table`, built from its loaded columns.
    fn build_entity(table: &Table, columns: &Vec<Vec<Value>>, row: usize) -> (r: Entity)
        requires
            columns@.len() >= table@.attrs.len(),
            forall|i: int| 0 <= i < table@.attrs.len() ==> row < (#[trigger] columns@[i])@.len(),
        ensures
            r@ == row_entity(table@, columns_view(columns@), row as int),
    {
        let mut data: Vec<Data> = Vec::new();
        let mut i: usize = 0;
        while i < table.attrs.len()
            invariant
                columns@.len() >= table@.attrs.len(),
                forall|k: int| 0 <= k < table@.attrs.len() ==> row < (#[trigger] columns@[k])@.len(),
                i <= table@.attrs.len(),
                data@.len() == i,
                forall|k: int|
                    0 <= k < i ==> (#[trigger] data@[k])@ == (
                        table@.attrs[k].0,
                        columns_view(columns@)[k][row as int],
                    ),
            decreases table@.attrs.len() - i,
        {
            assert(table@.attrs[i as int] == table.attrs@[i as int]@);
            assert(columns_view(columns@)[i as int][row as int] == columns@[i as int]@[row as int]@);
            let d = Data { name: table.attrs[i].name.clone(), value: columns[i][row].duplicate() };
            data.push(d);
            i = i + 1;
        }
        let r = Entity { of: table.name.clone(), data };
        assert(r@.data =~= row_entity(table@, columns_view(columns@), row as int).data);
        r
    }

    /// The values of `entity` whose names are among `names`, in order.
    fn project_data(entity: &Entity, names: &Vec<&str>) -> (r: Vec<Data>)
        ensures
            r@.map_values(|d: Data| d@) == project(entity@.data, names_view(names@)),
    {
        let ghost data = entity@.data;
        let mut out: Vec<Data> = Vec::new();
        let mut j: usize = 0;
        assert(data.subrange(0, 0) =~= Seq::<(Seq<char>, CellValue)>::empty());
        assert(out@.map_values(|d: Data| d@) =~= Seq::<(Seq<char>, CellValue)>::empty());
        while j < entity.data.len()
            invariant
                data == entity@.data,
                j <= data.len(),
                out@.map_values(|d: Data| d@) == project(data.subrange(0, j as int), names_view(names@)),
            decreases data.len() - j,
        {
            let d = &entity.data[j];
            assert(data[j as int] == d@);
            assert(data.subrange(0, j + 1).drop_last() =~= data.subrange(0, j as int));
            assert(data.subrange(0, j + 1).last() == d@);
            if names_contain(names, d.name.as_str()) {
                let ghost before = out@.map_values(|d: Data| d@);
                out.push(Data { name: d.name.clone(), value: d.value.duplicate() });
                assert(out@.map_values(|d: Data| d@) =~= before.push(d@));
            }
            j = j + 1;
        }
        assert(data.subrange(0, j as int) =~= data);
        out
    }

    /// Selects columns `attrs` of the rows of table `table_name` that meet
    /// every condition of `conditions`, in stored order.  Refused where the
    /// table does not exist, a name is not one of its columns, or a column file
    /// is missing.
    #[verifier::loop_isolation(false)]
    pub fn select(&mut self, table_name: &str, attrs: Vec<&str>, conditions: Vec<Condition>) -> (r:
        Result<Vec<Entity>, String>)
        requires
            select_defined(old(self)@, table_name@, names_view(attrs@)),
        ensures
            final(self)@ == old(self)@,
            rows_status(r) == select_result(
                old(self)@,
                table_name@,
                names_view(attrs@),
                conditions@,
            ),
    {
        let ghost e = self@;
        let ghost names = names_view(attrs@);
        let table = match self.get_table(table_name) {
            Some(t) => t.duplicate(),
            None => {
                return Err(no_table_msg(table_name));
            },
        };
        let ghost ti = find_table(e.tables, table_name@)->0;
        proof {
            lemma_find_table_spec(e.tables, table_name@);
        }
        assert(table@ == e.tables[ti]);
        assert(has_table(e.tables, table@.name));
        let mut i: usize = 0;
        assert(names.subrange(0, names.len() as int) =~= names);
        while i < attrs.len()
            invariant
                names == names_view(attrs@),
                i <= names.len(),
                first_unknown(table@.attrs, names) == first_unknown(
                    table@.attrs,
                    names.subrange(i as int, names.len() as int),
                ),
            decreases names.len() - i,
        {
            let ghost rest = names.subrange(i as int, names.len() as int);
            assert(rest[0] == attrs@[i as int]@);
            assert(rest.drop_first() =~= names.subrange(i + 1, names.len() as int));
            if !table.attr_exists(attrs[i]) {
                return Err(attr_not_in_table_msg(attrs[i], table.name.as_str()));
            }
            i = i + 1;
        }
        assert(first_unknown(table@.attrs, names.subrange(i as int, names.len() as int)) is None);
        let columns = match self.load_columns(&table) {
            Ok(cs) => cs,
            Err(m) => {
                return Err(m);
            },
        };
        let ghost cs = columns_view(columns@);
        if columns.len() == 0 {
            assert(select_rows(table@, cs, names, conditions@, row_count(cs)) =~= Seq::<EntityView>::empty());
            let r: Vec<Entity> = Vec::new();
            assert(entities_view(r@) =~= Seq::<EntityView>::empty());
            return Ok(r);
        }
        assert(rows_in_range(cs));
        assert(columns@.len() == table@.attrs.len()) by {
            crate::semantics::lemma_load_columns_len(self@.files, table@.name, table@.attrs);
        }
        let n = columns[0].len();
        assert(n == row_count(cs));
        let mut result: Vec<Entity> = Vec::new();
        let mut row: usize = 0;
        assert(entities_view(result@) =~= Seq::<EntityView>::empty());
        while row < n
            invariant
                cs == columns_view(columns@),
                names == names_view(attrs@),
                columns@.len() == table@.attrs.len(),
                columns@.len() > 0,
                n == columns@[0]@.len(),
                rows_in_range(cs),
                row <= n,
                entities_view(result@) == select_rows(table@, cs, names, conditions@, row as nat),
            decreases n - row,
        {
            assert forall|k: int| 0 <= k < columns@.len() implies row < (#[trigger] columns@[k])@.len() by {
                assert(cs[k].len() == columns@[k]@.len());
                assert(cs[k].len() >= cs[0].len());
            }
            let entity = Self::build_entity(&table, &columns, row);
            let ghost ev = row_entity(table@, cs, row as int);
            if match_all(&entity, &conditions) {
                let data = Self::project_data(&entity, &attrs);
                let ghost before = entities_view(result@);
                let ent = Entity { of: entity.of, data };
                assert(ent@ == EntityView { of: ev.of, data: project(ev.data, names) });
                result.push(ent);
                assert(entities_view(result@) =~= before.push(ent@));
            }
            row = row + 1;
        }
        Ok(result)
    }
}


impl Engine {
    /// Rewrites the file of column `attr` of `table` with `values`.  A missing
    /// file is an error; a value of another type stops the writing there, the
    /// values before it written.  Where it succeeds, the old contents are
    /// replaced: reading the column gives each value as it reads back, and
    /// values that read back as themselves are read back unchanged.
    pub fn write_column(&mut self, table: &Table, attr: &Attr, values: &Vec<Value>) -> (r: Result<
        (),
        String,
    >)
        ensures
            final(self)@.tables == old(self)@.tables,
            (final(self)@.files, status(r)) == write_one(
                old(self)@.files,
                (table@.name, attr.name@),
                attr.data_type,
                values@.map_values(|v: Value| v@),
            ),
            r is Ok && width(attr.data_type) > 0 ==> decode_column(
                attr.data_type,
                final(self)@.files[(table@.name, attr.name@)],
            ) == normalized_all(attr.data_type, values@.map_values(|v: Value| v@)),
            r is Ok && width(attr.data_type) > 0 && stable(attr.data_type, values@.map_values(|v: Value| v@))
                ==> decode_column(attr.data_type, final(self)@.files[(table@.name, attr.name@)])
                == values@.map_values(|v: Value| v@),
    {
        if self.column_file(table.name.as_str(), attr.name.as_str()).is_none() {
            return Err(not_found_msg());
        }
        let (bytes, ok) = crate::codec::encode_values(attr.data_type, values);
        self.load_file(table.name.as_str(), attr.name.as_str(), bytes);
        proof {
            if ok && width(attr.data_type) > 0 {
                law_write_then_read_column(
                    old(self)@.files,
                    (table@.name, attr.name@),
                    attr.data_type,
                    values@.map_values(|v: Value| v@),
                );
            }
        }
        if ok {
            Ok(())
        } else {
            Err(write_mismatch_msg())
        }
    }

    /// Rewrites the files of the columns of `table`, column by column, with
    /// `columns`; stops at the first error.
    fn write_columns(&mut self, table: &Table, columns: &Vec<Vec<Value>>) -> (r: Result<(), String>)
        requires
            columns@.len() == table@.attrs.len(),
        ensures
            final(self)@.tables == old(self)@.tables,
            (final(self)@.files, status(r)) == write_columns(
                old(self)@.files,
                table@.name,
                table@.attrs,
                columns_view(columns@),
            ),
    {
        let ghost attrs = table@.attrs;
        let ghost cs = columns_view(columns@);
        let mut i: usize = 0;
        assert(attrs.subrange(0, attrs.len() as int) =~= attrs);
        assert(cs.subrange(0, cs.len() as int) =~= cs);
        while i < table.attrs.len()
            invariant
                attrs == table@.attrs,
                cs == columns_view(columns@),
                cs.len() == attrs.len(),
                i <= attrs.len(),
                self@.tables == old(self)@.tables,
                write_columns(old(self)@.files, table@.name, attrs, cs) == write_columns(
                    self@.files,
                    table@.name,
                    attrs.subrange(i as int, attrs.len() as int),
                    cs.subrange(i as int, cs.len() as int),
                ),
            decreases attrs.len() - i,
        {
            let ghost ra = attrs.subrange(i as int, attrs.len() as int);
            let ghost rc = cs.subrange(i as int, cs.len() as int);
            assert(ra[0] == table.attrs@[i as int]@);
            assert(rc[0] == columns@[i as int]@.map_values(|v: Value| v@));
            assert(ra.drop_first() =~= attrs.subrange(i + 1, attrs.len() as int));
            assert(rc.drop_first() =~= cs.subrange(i + 1, cs.len() as int));
            match self.write_column(table, &table.attrs[i], &columns[i]) {
                Err(m) => {
                    return Err(m);
                },
                Ok(()) => {},
            }
            i = i + 1;
        }
        Ok(())
    }

    /// Which of the first `n` rows meet `conditions`, and how many do.
    fn match_rows(table: &Table, columns: &Vec<Vec<Value>>, conditions: &Vec<Condition>, n: usize) -> (r: (
        Vec<bool>,
        usize,
    ))
        requires
            columns@.len() == table@.attrs.len(),
            forall|i: int| 0 <= i < columns@.len() ==> n <= (#[trigger] columns@[i])@.len(),
        ensures
            r.0@.len() == n,
            forall|k: int|
                0 <= k < n ==> r.0@[k] == row_matches(
                    table@,
                    columns_view(columns@),
                    conditions@,
                    k,
                ),
            r.1 == count_matches(table@, columns_view(columns@), conditions@, n as nat),
    {
        let ghost cs = columns_view(columns@);
        let mut mask: Vec<bool> = Vec::new();
        let mut count: usize = 0;
        let mut row: usize = 0;
        while row < n
            invariant
                cs == columns_view(columns@),
                columns@.len() == table@.attrs.len(),
                forall|i: int| 0 <= i < columns@.len() ==> n <= (#[trigger] columns@[i])@.len(),
                row <= n,
                mask@.len() == row,
                forall|k: int| 0 <= k < row ==> mask@[k] == row_matches(table@, cs, conditions@, k),
                count == count_matches(table@, cs, conditions@, row as nat),
            decreases n - row,
        {
            proof {
                lemma_count_matches(table@, cs, conditions@, row as nat);
            }
            let entity = Self::build_entity(&table, &columns, row);
            let m = match_all(&entity, conditions);
            mask.push(m);
            if m {
                count = count + 1;
            }
            row = row + 1;
        }
        (mask, count)
    }

    /// Deletes the rows of table `table_name` that meet every condition of
    /// `conditions` and gives their count.  Refused where the table does not
    /// exist or a column file is missing.
    #[verifier::loop_isolation(false)]
    pub fn delete(&mut self, table_name: &str, conditions: Vec<Condition>) -> (r: Result<usize, String>)
        requires
            rows_readable(old(self)@, table_name@),
        ensures
            (final(self)@, count_status(r)) == delete_result(old(self)@, table_name@, conditions@),
    {
        let ghost e = self@;
        let table = match self.get_table(table_name) {
            Some(t) => t.duplicate(),
            None => {
                return Err(no_table_msg(table_name));
            },
        };
        let ghost ti = find_table(e.tables, table_name@)->0;
        proof {
            lemma_find_table_spec(e.tables, table_name@);
        }
        assert(table@ == e.tables[ti]);
        let columns = match self.load_columns(&table) {
            Ok(cs) => cs,
            Err(m) => {
                return Err(m);
            },
        };
        let ghost cs = columns_view(columns@);
        if columns.len() == 0 {
            return Ok(0);
        }
        proof {
            crate::semantics::lemma_load_columns_len(e.files, table@.name, table@.attrs);
        }
        let n = columns[0].len();
        assert forall|k: int| 0 <= k < columns@.len() implies n <= (#[trigger] columns@[k])@.len() by {
            assert(cs[k].len() == columns@[k]@.len());
            assert(cs[k].len() >= cs[0].len());
        }
        let (mask, deleted) = Self::match_rows(&table, &columns, &conditions, n);
        let mut new_columns: Vec<Vec<Value>> = Vec::new();
        let mut c: usize = 0;
        while c < columns.len()
            invariant
                c <= columns@.len(),
                new_columns@.len() == c,
                forall|k: int|
                    0 <= k < c ==> columns_view(new_columns@)[k] == kept_values(
                        cs[k],
                        table@,
                        cs,
                        conditions@,
                        n as nat,
                    ),
            decreases columns@.len() - c,
        {
            let mut kept: Vec<Value> = Vec::new();
            let mut row: usize = 0;
            while row < n
                invariant
                    row <= n,
                    kept@.map_values(|v: Value| v@) == kept_values(cs[c as int], table@, cs, conditions@, row as nat),
                decreases n - row,
            {
                let ghost before = kept@.map_values(|v: Value| v@);
                if !mask[row] {
                    let v = columns[c][row].duplicate();
                    assert(v@ == cs[c as int][row as int]);
                    kept.push(v);
                    assert(kept@.map_values(|v: Value| v@) =~= before.push(v@));
                }
                row = row + 1;
            }
            let ghost before = columns_view(new_columns@);
            new_columns.push(kept);
            assert(columns_view(new_columns@) =~= before.push(kept_values(cs[c as int], table@, cs, conditions@, n as nat)));
            c = c + 1;
        }
        assert(columns_view(new_columns@) =~= Seq::new(
            cs.len(),
            |k: int| kept_values(cs[k], table@, cs, conditions@, n as nat),
        ));
        match self.write_columns(&table, &new_columns) {
            Err(m) => Err(m),
            Ok(()) => Ok(deleted),
        }
    }

    /// The index of the last update that goes to column `c` of `table`.
    fn last_update_index(table: &Table, updates: &Vec<Data>, c: usize) -> (r: Option<usize>)
        ensures
            match r {
                Some(j) => j < updates@.len() && last_update_for(table@.attrs, updates_view(updates@), c as int)
                    == Some(updates@[j as int].value@),
                None => last_update_for(table@.attrs, updates_view(updates@), c as int) is None,
            },
    {
        let ghost uv = updates_view(updates@);
        let mut found: Option<usize> = None;
        let mut j: usize = 0;
        assert(uv.subrange(0, 0) =~= Seq::<(Seq<char>, CellValue)>::empty());
        while j < updates.len()
            invariant
                uv == updates_view(updates@),
                j <= uv.len(),
                match found {
                    Some(k) => k < j && last_update_for(table@.attrs, uv.subrange(0, j as int), c as int)
                        == Some(updates@[k as int].value@),
                    None => last_update_for(table@.attrs, uv.subrange(0, j as int), c as int) is None,
                },
            decreases uv.len() - j,
        {
            assert(uv.subrange(0, j + 1).drop_last() =~= uv.subrange(0, j as int));
            assert(uv.subrange(0, j + 1).last() == updates@[j as int]@);
            match Self::attr_index(table, &updates[j].name) {
                Some(ai) => {
                    if ai == c {
                        found = Some(j);
                    }
                },
                None => {},
            }
            j = j + 1;
        }
        assert(uv.subrange(0, j as int) =~= uv);
        found
    }

    /// Sets, with `updates`, the values of the rows of table `table_name` that
    /// meet every condition of `conditions`, and gives their count.  Refused
    /// where the table does not exist, a column file is missing, or (where some
    /// row matches) an update names an unknown column.
    #[verifier::loop_isolation(false)]
    pub fn update(&mut self, table_name: &str, updates: Vec<Data>, conditions: Vec<Condition>) -> (r:
        Result<usize, String>)
        requires
            rows_readable(old(self)@, table_name@),
        ensures
            (final(self)@, count_status(r)) == update_result(
                old(self)@,
                table_name@,
                updates_view(updates@),
                conditions@,
            ),
    {
        let ghost e = self@;
        let ghost uv = updates_view(updates@);
        let table = match self.get_table(table_name) {
            Some(t) => t.duplicate(),
            None => {
                return Err(no_table_msg(table_name));
            },
        };
        let ghost ti = find_table(e.tables, table_name@)->0;
        proof {
            lemma_find_table_spec(e.tables, table_name@);
        }
        assert(table@ == e.tables[ti]);
        let columns = match self.load_columns(&table) {
            Ok(cs) => cs,
            Err(m) => {
                return Err(m);
            },
        };
        let ghost cs = columns_view(columns@);
        if columns.len() == 0 {
            return Ok(0);
        }
        proof {
            crate::semantics::lemma_load_columns_len(e.files, table@.name, table@.attrs);
        }
        let n = columns[0].len();
        assert forall|k: int| 0 <= k < columns@.len() implies n <= (#[trigger] columns@[k])@.len() by {
            assert(cs[k].len() == columns@[k]@.len());
            assert(cs[k].len() >= cs[0].len());
        }
        let (mask, updated) = Self::match_rows(&table, &columns, &conditions, n);
        proof {
            lemma_count_matches(table@, cs, conditions@, n as nat);
        }
        if updated > 0 {
            let mut j: usize = 0;
            assert(uv.subrange(0, uv.len() as int) =~= uv);
            while j < updates.len()
                invariant
                    j <= uv.len(),
                    first_unknown_update(table@.attrs, uv) == first_unknown_update(
                        table@.attrs,
                        uv.subrange(j as int, uv.len() as int),
                    ),
                decreases uv.len() - j,
            {
                let ghost rest = uv.subrange(j as int, uv.len() as int);
                assert(rest[0] == updates@[j as int]@);
                assert(rest.drop_first() =~= uv.subrange(j + 1, uv.len() as int));
                if !table.attr_exists(updates[j].name.as_str()) {
                    return Err(unknown_attr_msg(updates[j].name.as_str()));
                }
                j = j + 1;
            }
            assert(first_unknown_update(table@.attrs, uv.subrange(j as int, uv.len() as int)) is None);
        }
        let mut new_columns: Vec<Vec<Value>> = Vec::new();
        let mut c: usize = 0;
        while c < columns.len()
            invariant
                c <= columns@.len(),
                new_columns@.len() == c,
                forall|k: int|
                    0 <= k < c ==> columns_view(new_columns@)[k] == updated_values(
                        cs[k],
                        table@,
                        cs,
                        conditions@,
                        n as nat,
                        last_update_for(table@.attrs, uv, k),
                    ),
            decreases columns@.len() - c,
        {
            let upd = Self::last_update_index(&table, &updates, c);
            let ghost target = updated_values(
                cs[c as int],
                table@,
                cs,
                conditions@,
                n as nat,
                last_update_for(table@.attrs, uv, c as int),
            );
            let mut col: Vec<Value> = Vec::new();
            let mut row: usize = 0;
            while row < columns[c].len()
                invariant
                    row <= cs[c as int].len(),
                    col@.len() == row,
                    forall|k: int| 0 <= k < row ==> (#[trigger] col@[k])@ == target[k],
                decreases cs[c as int].len() - row,
            {
                let v = if row < n && mask[row] {
                    match upd {
                        Some(j) => updates[j].value.duplicate(),
                        None => columns[c][row].duplicate(),
                    }
                } else {
                    columns[c][row].duplicate()
                };
                col.push(v);
                row = row + 1;
            }
            let ghost before = columns_view(new_columns@);
            assert(col@.map_values(|v: Value| v@) =~= target);
            new_columns.push(col);
            assert(columns_view(new_columns@) =~= before.push(target));
            c = c + 1;
        }
        assert(columns_view(new_columns@) =~= Seq::new(
            cs.len(),
            |k: int|
                updated_values(
                    cs[k],
                    table@,
                    cs,
                    conditions@,
                    n as nat,
                    last_update_for(table@.attrs, uv, k),
                ),
        ));
        match self.write_columns(&table, &new_columns) {
            Err(m) => Err(m),
            Ok(()) => Ok(updated),
        }
    }
}


impl Engine {
    /// Whether the columns of table `table_name` can be read with every row
    /// buildable, where the table exists: the condition under which `delete`
    /// and `update` may be called.
    #[verifier::loop_isolation(false)]
    pub fn rows_readable(&self, table_name: &str) -> (r: bool)
        ensures
            r == rows_readable(self@, table_name@),
    {
        let table = match self.get_table(table_name) {
            None => {
                return true;
            },
            Some(t) => t,
        };
        let ghost attrs = table@.attrs;
        let ghost files = self@.files;
        let ghost mut prefix: Seq<Seq<CellValue>> = Seq::empty();
        let mut counts: Vec<usize> = Vec::new();
        let mut i: usize = 0;
        assert(attrs.subrange(0, attrs.len() as int) =~= attrs);
        assert(prefix + Seq::<Seq<CellValue>>::empty() =~= prefix);
        while i < table.attrs.len()
            invariant
                attrs == table@.attrs,
                files == self@.files,
                i <= attrs.len(),
                prefix.len() == i,
                counts@.len() == i,
                forall|k: int| 0 <= k < i ==> (#[trigger] prefix[k]).len() == counts@[k],
                load_columns(files, table@.name, attrs) == prepend_columns(
                    prefix,
                    load_columns(files, table@.name, attrs.subrange(i as int, attrs.len() as int)),
                ),
            decreases attrs.len() - i,
        {
            let attr = &table.attrs[i];
            let ghost rest = attrs.subrange(i as int, attrs.len() as int);
            assert(rest[0] == attr@);
            assert(rest.drop_first() =~= attrs.subrange(i + 1, attrs.len() as int));
            match self.column_file(table.name.as_str(), attr.name.as_str()) {
                None => {
                    return true;
                },
                Some(bytes) => {
                    let w: usize = match attr.data_type {
                        Type::Int => 4,
                        Type::VarChar(n) => n,
                    };
                    if w == 0 {
                        return false;
                    }
                    let ghost col = decode_column(attr.data_type, bytes@);
                    proof {
                        crate::codec::lemma_decode_column_count(attr.data_type, bytes@);
                        match load_columns(files, table@.name, attrs.subrange(i + 1, attrs.len() as int)) {
                            Loaded::Columns(r) => {
                                assert(prefix.push(col) + r =~= prefix + (seq![col] + r));
                            },
                            _ => {},
                        }
                        prefix = prefix.push(col);
                    }
                    counts.push(bytes.len() / w);
                },
            }
            i = i + 1;
        }
        assert(prefix + Seq::<Seq<CellValue>>::empty() =~= prefix);
        assert(load_columns(files, table@.name, attrs) == Loaded::Columns(prefix));
        if counts.len() == 0 {
            return true;
        }
        let first = counts[0];
        let mut k: usize = 0;
        while k < counts.len()
            invariant
                counts@.len() == prefix.len(),
                prefix.len() > 0,
                first == prefix[0].len(),
                k <= counts@.len(),
                forall|j: int| 0 <= j < prefix.len() ==> (#[trigger] prefix[j]).len() == counts@[j],
                forall|j: int| 0 <= j < k ==> (#[trigger] prefix[j]).len() >= prefix[0].len(),
            decreases counts@.len() - k,
        {
            if counts[k] < first {
                assert(!rows_in_range(prefix)) by {
                    assert(prefix[k as int].len() < prefix[0].len());
                }
                return false;
            }
            k = k + 1;
        }
        true
    }

    /// Whether selecting columns `attrs` of table `table_name` ends without a
    /// fault: the condition under which `select` may be called.
    #[verifier::loop_isolation(false)]
    pub fn select_readable(&self, table_name: &str, attrs: &Vec<&str>) -> (r: bool)
        ensures
            r == select_defined(self@, table_name@, names_view(attrs@)),
    {
        let ghost names = names_view(attrs@);
        let table = match self.get_table(table_name) {
            None => {
                return true;
            },
            Some(t) => t,
        };
        let mut i: usize = 0;
        assert(names.subrange(0, names.len() as int) =~= names);
        while i < attrs.len()
            invariant
                names == names_view(attrs@),
                i <= names.len(),
                first_unknown(table@.attrs, names) == first_unknown(
                    table@.attrs,
                    names.subrange(i as int, names.len() as int),
                ),
            decreases names.len() - i,
        {
            let ghost rest = names.subrange(i as int, names.len() as int);
            assert(rest[0] == attrs@[i as int]@);
            assert(rest.drop_first() =~= names.subrange(i + 1, names.len() as int));
            if !table.attr_exists(attrs[i]) {
                return true;
            }
            i = i + 1;
        }
        assert(first_unknown(table@.attrs, names.subrange(i as int, names.len() as int)) is None);
        self.rows_readable(table_name)
    }
}

} // verus!
