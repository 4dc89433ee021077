use vstd::prelude::*;
use crate::model::{CellValue, Condition, Data, Entity, EntityView, entities_view, TableView, Type, find_attr, find_value, has_attr};
use crate::engine::{EngineView, FileKey, find_table, has_table};
use crate::codec::{decode_column, encode_cell, encode_column, width};
use crate::query::all_hold;
use crate::messages::{
    msg_drop_missing, msg_missing_attr, msg_no_table, msg_table_exists, msg_type_mismatch,
    msg_unknown_attr, msg_unreachable, msg_not_found, msg_write_mismatch,
    msg_attr_not_in_table,
};

verus! {

/// The outcome of an operation without a value: `Ok` or the error's text.
pub type Status = Result<(), Seq<char>>;

/// `files` with an empty file for each column of `attrs` of table `tname`.
pub open spec fn create_files(
    files: Map<FileKey, Seq<u8>>,
    tname: Seq<char>,
    attrs: Seq<(Seq<char>, Type)>,
) -> Map<FileKey, Seq<u8>>
    decreases attrs.len(),
{
    if attrs.len() == 0 {
        files
    } else {
        create_files(files, tname, attrs.drop_last()).insert((tname, attrs.last().0), Seq::empty())
    }
}

/// The state and outcome of creating table `t`: refused where a table of that
/// name exists; else the table is appended to the schema and each of its
/// columns gets an empty file.
pub open spec fn create_table_result(e: EngineView, t: TableView) -> (EngineView, Status) {
    if has_table(e.tables, t.name) {
        (e, Err(msg_table_exists(t.name)))
    } else {
        (
            EngineView {
                tables: e.tables.push(t),
                files: create_files(e.files, t.name, t.attrs),
            },
            Ok(()),
        )
    }
}

/// `tables` without those named `name`, in order.
pub open spec fn tables_without(tables: Seq<TableView>, name: Seq<char>) -> Seq<TableView>
    decreases tables.len(),
{
    if tables.len() == 0 {
        tables
    } else {
        let rest = tables_without(tables.drop_last(), name);
        if tables.last().name == name {
            rest
        } else {
            rest.push(tables.last())
        }
    }
}

/// `files` without the files of table `name`.
pub open spec fn files_without(files: Map<FileKey, Seq<u8>>, name: Seq<char>) -> Map<FileKey, Seq<u8>> {
    files.restrict(Set::new(|k: FileKey| k.0 != name))
}

/// The state and outcome of dropping table `name`: refused where no table has
/// that name; else every table of that name and every file of it goes.
pub open spec fn drop_table_result(e: EngineView, name: Seq<char>) -> (EngineView, Status) {
    if !has_table(e.tables, name) {
        (e, Err(msg_drop_missing(name)))
    } else {
        (
            EngineView {
                tables: tables_without(e.tables, name),
                files: files_without(e.files, name),
            },
            Ok(()),
        )
    }
}

/// The outcome of a call that returns nothing, by its view.
pub open spec fn status(r: Result<(), String>) -> Status {
    match r {
        Ok(_) => Ok(()),
        Err(m) => Err(m@),
    }
}


/// Whether value `v` has column type `t`.
pub open spec fn type_matches(t: Type, v: CellValue) -> bool {
    match (t, v) {
        (Type::Int, CellValue::Int(_)) => true,
        (Type::VarChar(_), CellValue::VarChar(_)) => true,
        _ => false,
    }
}

/// Checks, column by column, that `data` gives the column a value (its first
/// of that name) of the column's type.
pub open spec fn check_attrs(attrs: Seq<(Seq<char>, Type)>, data: Seq<(Seq<char>, CellValue)>) -> Status
    decreases attrs.len(),
{
    if attrs.len() == 0 {
        Ok(())
    } else {
        match find_value(data, attrs[0].0) {
            None => Err(msg_missing_attr(attrs[0].0)),
            Some(v) => if type_matches(attrs[0].1, v) {
                check_attrs(attrs.drop_first(), data)
            } else {
                Err(msg_type_mismatch(attrs[0].0, attrs[0].1, v))
            },
        }
    }
}

/// Checks, value by value, that every name of `data` is a column of `attrs`.
pub open spec fn check_known(attrs: Seq<(Seq<char>, Type)>, data: Seq<(Seq<char>, CellValue)>) -> Status
    decreases data.len(),
{
    if data.len() == 0 {
        Ok(())
    } else if !has_attr(attrs, data[0].0) {
        Err(msg_unknown_attr(data[0].0))
    } else {
        check_known(attrs, data.drop_first())
    }
}

/// Whether row `data` may be inserted into table `t`: first each column must
/// have a value of its type, then no value may name an unknown column.
pub open spec fn validate(t: TableView, data: Seq<(Seq<char>, CellValue)>) -> Status {
    match check_attrs(t.attrs, data) {
        Err(m) => Err(m),
        Ok(_) => check_known(t.attrs, data),
    }
}

/// `files` with `bytes` appended to the file `k`, which is created where missing.
pub open spec fn append_file(files: Map<FileKey, Seq<u8>>, k: FileKey, bytes: Seq<u8>) -> Map<
    FileKey,
    Seq<u8>,
> {
    files.insert(
        k,
        if files.contains_key(k) {
            files[k] + bytes
        } else {
            bytes
        },
    )
}

/// Appends each value of `data`, in order, to the file of its column of table
/// `t` (the first column of that name), encoded by that column's type; stops
/// with an error at the first value that does not have it.
pub open spec fn store_data(
    files: Map<FileKey, Seq<u8>>,
    t: TableView,
    data: Seq<(Seq<char>, CellValue)>,
) -> (Map<FileKey, Seq<u8>>, Status)
    decreases data.len(),
{
    if data.len() == 0 {
        (files, Ok(()))
    } else {
        match find_attr(t.attrs, data[0].0) {
            None => (files, Err(msg_unreachable())),
            Some(i) => match encode_cell(t.attrs[i].1, data[0].1) {
                None => (files, Err(msg_unreachable())),
                Some(b) => store_data(
                    append_file(files, (t.name, data[0].0), b),
                    t,
                    data.drop_first(),
                ),
            },
        }
    }
}

/// The state and outcome of inserting row `ent`: refused where its table does
/// not exist or the row does not validate; else its values are appended.
pub open spec fn insert_result(e: EngineView, ent: EntityView) -> (EngineView, Status) {
    match find_table(e.tables, ent.of) {
        None => (e, Err(msg_no_table(ent.of))),
        Some(i) => match validate(e.tables[i], ent.data) {
            Err(m) => (e, Err(m)),
            Ok(_) => {
                let stored = store_data(e.files, e.tables[i], ent.data);
                (EngineView { tables: e.tables, files: stored.0 }, stored.1)
            },
        },
    }
}

pub proof fn lemma_check_known(attrs: Seq<(Seq<char>, Type)>, data: Seq<(Seq<char>, CellValue)>)
    requires
        check_known(attrs, data) is Ok,
    ensures
        forall|i: int| 0 <= i < data.len() ==> has_attr(attrs, #[trigger] data[i].0),
    decreases data.len(),
{
    if data.len() > 0 {
        lemma_check_known(attrs, data.drop_first());
        assert forall|i: int| 0 <= i < data.len() implies has_attr(attrs, #[trigger] data[i].0) by {
            if i > 0 {
                assert(data[i] == data.drop_first()[i - 1]);
            }
        }
    }
}


/// What loading the columns of a table gives: their values, or the error of
/// the first column whose file is missing, or no result at all (a column of
/// width zero is read forever).
pub enum Loaded {
    Columns(Seq<Seq<CellValue>>),
    Failed(Seq<char>),
    Diverges,
}

/// Loads, column by column, the files of columns `attrs` of table `tname`.
pub open spec fn load_columns(
    files: Map<FileKey, Seq<u8>>,
    tname: Seq<char>,
    attrs: Seq<(Seq<char>, Type)>,
) -> Loaded
    decreases attrs.len(),
{
    if attrs.len() == 0 {
        Loaded::Columns(Seq::empty())
    } else if !files.contains_key((tname, attrs[0].0)) {
        Loaded::Failed(msg_not_found())
    } else if width(attrs[0].1) == 0 {
        Loaded::Diverges
    } else {
        match load_columns(files, tname, attrs.drop_first()) {
            Loaded::Columns(cs) => Loaded::Columns(
                seq![decode_column(attrs[0].1, files[(tname, attrs[0].0)])] + cs,
            ),
            other => other,
        }
    }
}

/// Row `r` of table `t` whose columns hold `cols`: each column's name with
/// its value in that row.
pub open spec fn row_entity(t: TableView, cols: Seq<Seq<CellValue>>, r: int) -> EntityView {
    EntityView { of: t.name, data: Seq::new(t.attrs.len(), |i: int| (t.attrs[i].0, cols[i][r])) }
}

/// Whether every column has at least as many values as the first, so that
/// every row that the first column counts can be built.
pub open spec fn rows_in_range(cols: Seq<Seq<CellValue>>) -> bool {
    forall|i: int| 0 <= i < cols.len() ==> #[trigger] cols[i].len() >= cols[0].len()
}

/// The number of rows of loaded columns: that of the first column.
pub open spec fn row_count(cols: Seq<Seq<CellValue>>) -> nat {
    if cols.len() == 0 {
        0
    } else {
        cols[0].len()
    }
}

/// Whether the columns of table `name` load, with every row buildable, where
/// the table exists: the operations that read them end without a fault.
pub open spec fn rows_readable(e: EngineView, name: Seq<char>) -> bool {
    match find_table(e.tables, name) {
        None => true,
        Some(i) => match load_columns(e.files, e.tables[i].name, e.tables[i].attrs) {
            Loaded::Columns(cs) => rows_in_range(cs),
            Loaded::Failed(_) => true,
            Loaded::Diverges => false,
        },
    }
}

/// The first name of `names` that is not a column of `attrs`.
pub open spec fn first_unknown(attrs: Seq<(Seq<char>, Type)>, names: Seq<Seq<char>>) -> Option<
    Seq<char>,
>
    decreases names.len(),
{
    if names.len() == 0 {
        None
    } else if !has_attr(attrs, names[0]) {
        Some(names[0])
    } else {
        first_unknown(attrs, names.drop_first())
    }
}

/// The values of `data` whose names are among `names`, in order.
pub open spec fn project(data: Seq<(Seq<char>, CellValue)>, names: Seq<Seq<char>>) -> Seq<
    (Seq<char>, CellValue),
>
    decreases data.len(),
{
    if data.len() == 0 {
        data
    } else {
        let rest = project(data.drop_last(), names);
        if names.contains(data.last().0) {
            rest.push(data.last())
        } else {
            rest
        }
    }
}

/// Whether row `r` meets every condition of `conds`.
pub open spec fn row_matches(t: TableView, cols: Seq<Seq<CellValue>>, conds: Seq<Condition>, r: int) -> bool {
    all_hold(row_entity(t, cols, r).data, conds)
}

/// The rows among the first `n` that meet `conds`, in order, each cut to the
/// columns named in `names`.
pub open spec fn select_rows(
    t: TableView,
    cols: Seq<Seq<CellValue>>,
    names: Seq<Seq<char>>,
    conds: Seq<Condition>,
    n: nat,
) -> Seq<EntityView>
    decreases n,
{
    if n == 0 {
        Seq::empty()
    } else {
        let prev = select_rows(t, cols, names, conds, (n - 1) as nat);
        let e = row_entity(t, cols, n - 1);
        if all_hold(e.data, conds) {
            prev.push(EntityView { of: e.of, data: project(e.data, names) })
        } else {
            prev
        }
    }
}

/// The views of names given as string slices.
pub open spec fn names_view(names: Seq<&str>) -> Seq<Seq<char>> {
    names.map_values(|s: &str| s@)
}

/// Whether a select of columns `names` from table `name` ends without a fault.
pub open spec fn select_defined(e: EngineView, name: Seq<char>, names: Seq<Seq<char>>) -> bool {
    match find_table(e.tables, name) {
        None => true,
        Some(i) => match first_unknown(e.tables[i].attrs, names) {
            Some(_) => true,
            None => rows_readable(e, name),
        },
    }
}

/// The outcome of selecting columns `names` of the rows of table `name` that
/// meet `conds`: refused where the table does not exist or a name is not one
/// of its columns, or where a column file is missing.
pub open spec fn select_result(
    e: EngineView,
    name: Seq<char>,
    names: Seq<Seq<char>>,
    conds: Seq<Condition>,
) -> Result<Seq<EntityView>, Seq<char>> {
    match find_table(e.tables, name) {
        None => Err(msg_no_table(name)),
        Some(i) => {
            let t = e.tables[i];
            match first_unknown(t.attrs, names) {
                Some(a) => Err(msg_attr_not_in_table(a, t.name)),
                None => match load_columns(e.files, t.name, t.attrs) {
                    Loaded::Columns(cs) => Ok(select_rows(t, cs, names, conds, row_count(cs))),
                    Loaded::Failed(m) => Err(m),
                    Loaded::Diverges => Err(Seq::empty()),
                },
            }
        },
    }
}

/// The number of rows among the first `n` that meet `conds`.
pub open spec fn count_matches(t: TableView, cols: Seq<Seq<CellValue>>, conds: Seq<Condition>, n: nat) -> nat
    decreases n,
{
    if n == 0 {
        0
    } else {
        count_matches(t, cols, conds, (n - 1) as nat) + if row_matches(t, cols, conds, n - 1) {
            1nat
        } else {
            0nat
        }
    }
}

/// The values of column `col` in the rows among the first `n` that do not meet `conds`.
pub open spec fn kept_values(
    col: Seq<CellValue>,
    t: TableView,
    cols: Seq<Seq<CellValue>>,
    conds: Seq<Condition>,
    n: nat,
) -> Seq<CellValue>
    decreases n,
{
    if n == 0 {
        Seq::empty()
    } else {
        let prev = kept_values(col, t, cols, conds, (n - 1) as nat);
        if row_matches(t, cols, conds, n - 1) {
            prev
        } else {
            prev.push(col[n - 1])
        }
    }
}

/// Rewrites the file `k` with `vals` encoded by type `ty`; a missing file is an
/// error, and a value of another type stops the writing there.
pub open spec fn write_one(files: Map<FileKey, Seq<u8>>, k: FileKey, ty: Type, vals: Seq<CellValue>) -> (
    Map<FileKey, Seq<u8>>,
    Status,
) {
    if !files.contains_key(k) {
        (files, Err(msg_not_found()))
    } else {
        let enc = encode_column(ty, vals);
        (
            files.insert(k, enc.0),
            if enc.1 {
                Ok(())
            } else {
                Err(msg_write_mismatch())
            },
        )
    }
}

/// Rewrites the files of columns `attrs` of table `tname`, column by column,
/// with `cols`; stops at the first error.
pub open spec fn write_columns(
    files: Map<FileKey, Seq<u8>>,
    tname: Seq<char>,
    attrs: Seq<(Seq<char>, Type)>,
    cols: Seq<Seq<CellValue>>,
) -> (Map<FileKey, Seq<u8>>, Status)
    decreases attrs.len(),
{
    if attrs.len() == 0 || cols.len() == 0 {
        (files, Ok(()))
    } else {
        let w = write_one(files, (tname, attrs[0].0), attrs[0].1, cols[0]);
        if w.1 is Ok {
            write_columns(w.0, tname, attrs.drop_first(), cols.drop_first())
        } else {
            w
        }
    }
}

/// The state and outcome of deleting the rows of table `name` that meet
/// `conds`: the count of deleted rows, or the error.
pub open spec fn delete_result(e: EngineView, name: Seq<char>, conds: Seq<Condition>) -> (
    EngineView,
    Result<usize, Seq<char>>,
) {
    match find_table(e.tables, name) {
        None => (e, Err(msg_no_table(name))),
        Some(i) => {
            let t = e.tables[i];
            match load_columns(e.files, t.name, t.attrs) {
                Loaded::Failed(m) => (e, Err(m)),
                Loaded::Diverges => (e, Err(Seq::empty())),
                Loaded::Columns(cs) => if cs.len() == 0 {
                    (e, Ok(0))
                } else {
                    let n = row_count(cs);
                    let kept = Seq::new(
                        cs.len(),
                        |c: int| kept_values(cs[c], t, cs, conds, n),
                    );
                    let w = write_columns(e.files, t.name, t.attrs, kept);
                    (
                        EngineView { tables: e.tables, files: w.0 },
                        match w.1 {
                            Ok(_) => Ok(count_matches(t, cs, conds, n) as usize),
                            Err(m) => Err(m),
                        },
                    )
                },
            }
        },
    }
}

/// The first update whose name is not a column of `attrs`.
pub open spec fn first_unknown_update(
    attrs: Seq<(Seq<char>, Type)>,
    updates: Seq<(Seq<char>, CellValue)>,
) -> Option<Seq<char>>
    decreases updates.len(),
{
    if updates.len() == 0 {
        None
    } else if !has_attr(attrs, updates[0].0) {
        Some(updates[0].0)
    } else {
        first_unknown_update(attrs, updates.drop_first())
    }
}

/// The value of the last update that goes to column `c` (the first column
/// of its name).
pub open spec fn last_update_for(
    attrs: Seq<(Seq<char>, Type)>,
    updates: Seq<(Seq<char>, CellValue)>,
    c: int,
) -> Option<CellValue>
    decreases updates.len(),
{
    if updates.len() == 0 {
        None
    } else if find_attr(attrs, updates.last().0) == Some(c) {
        Some(updates.last().1)
    } else {
        last_update_for(attrs, updates.drop_last(), c)
    }
}

/// Column `col` with value `upd` (where given) in each of the first `n` rows
/// that meet `conds`.
pub open spec fn updated_values(
    col: Seq<CellValue>,
    t: TableView,
    cols: Seq<Seq<CellValue>>,
    conds: Seq<Condition>,
    n: nat,
    upd: Option<CellValue>,
) -> Seq<CellValue> {
    Seq::new(
        col.len(),
        |r: int|
            if r < n && row_matches(t, cols, conds, r) && upd is Some {
                upd->0
            } else {
                col[r]
            },
    )
}

/// Whether some row among the first `n` meets `conds`.
pub open spec fn any_match(t: TableView, cols: Seq<Seq<CellValue>>, conds: Seq<Condition>, n: nat) -> bool {
    exists|r: int| 0 <= r < n && row_matches(t, cols, conds, r)
}

/// The state and outcome of updating the rows of table `name` that meet
/// `conds` with `updates`: the count of updated rows, or the error.  An update
/// naming an unknown column is refused only where some row matches.
pub open spec fn update_result(
    e: EngineView,
    name: Seq<char>,
    updates: Seq<(Seq<char>, CellValue)>,
    conds: Seq<Condition>,
) -> (EngineView, Result<usize, Seq<char>>) {
    match find_table(e.tables, name) {
        None => (e, Err(msg_no_table(name))),
        Some(i) => {
            let t = e.tables[i];
            match load_columns(e.files, t.name, t.attrs) {
                Loaded::Failed(m) => (e, Err(m)),
                Loaded::Diverges => (e, Err(Seq::empty())),
                Loaded::Columns(cs) => if cs.len() == 0 {
                    (e, Ok(0))
                } else {
                    let n = row_count(cs);
                    if any_match(t, cs, conds, n) && first_unknown_update(t.attrs, updates) is Some {
                        (e, Err(msg_unknown_attr(first_unknown_update(t.attrs, updates)->0)))
                    } else {
                        let new_cols = Seq::new(
                            cs.len(),
                            |c: int|
                                updated_values(
                                    cs[c],
                                    t,
                                    cs,
                                    conds,
                                    n,
                                    last_update_for(t.attrs, updates, c),
                                ),
                        );
                        let w = write_columns(e.files, t.name, t.attrs, new_cols);
                        (
                            EngineView { tables: e.tables, files: w.0 },
                            match w.1 {
                                Ok(_) => Ok(count_matches(t, cs, conds, n) as usize),
                                Err(m) => Err(m),
                            },
                        )
                    }
                },
            }
        },
    }
}

/// The outcome of a select, by its view.
pub open spec fn rows_status(r: Result<Vec<Entity>, String>) -> Result<Seq<EntityView>, Seq<char>> {
    match r {
        Ok(v) => Ok(entities_view(v@)),
        Err(m) => Err(m@),
    }
}

/// The outcome of a call that returns a count, by its view.
pub open spec fn count_status(r: Result<usize, String>) -> Result<usize, Seq<char>> {
    match r {
        Ok(n) => Ok(n),
        Err(m) => Err(m@),
    }
}

/// The views of a sequence of updates.
pub open spec fn updates_view(updates: Seq<Data>) -> Seq<(Seq<char>, CellValue)> {
    updates.map_values(|d: Data| d@)
}


/// `cs` followed by the columns that `l` loads; a failure stays as it is.
pub open spec fn prepend_columns(cs: Seq<Seq<CellValue>>, l: Loaded) -> Loaded {
    match l {
        Loaded::Columns(rest) => Loaded::Columns(cs + rest),
        other => other,
    }
}


pub proof fn lemma_load_columns_len(
    files: Map<FileKey, Seq<u8>>,
    tname: Seq<char>,
    attrs: Seq<(Seq<char>, Type)>,
)
    ensures
        load_columns(files, tname, attrs) matches Loaded::Columns(cs) ==> cs.len() == attrs.len(),
    decreases attrs.len(),
{
    if attrs.len() > 0 {
        lemma_load_columns_len(files, tname, attrs.drop_first());
    }
}


pub proof fn lemma_count_matches(t: TableView, cols: Seq<Seq<CellValue>>, conds: Seq<Condition>, n: nat)
    ensures
        count_matches(t, cols, conds, n) <= n,
        count_matches(t, cols, conds, n) > 0 <==> any_match(t, cols, conds, n),
    decreases n,
{
    if n > 0 {
        lemma_count_matches(t, cols, conds, (n - 1) as nat);
        if any_match(t, cols, conds, n) && !row_matches(t, cols, conds, n - 1) {
            let r = choose|r: int| 0 <= r < n && row_matches(t, cols, conds, r);
            assert(any_match(t, cols, conds, (n - 1) as nat));
        }
        if row_matches(t, cols, conds, n - 1) {
            assert(any_match(t, cols, conds, n));
        }
        if any_match(t, cols, conds, (n - 1) as nat) {
            let r = choose|r: int| 0 <= r < n - 1 && row_matches(t, cols, conds, r);
            assert(any_match(t, cols, conds, n));
        }
    }
}

} // verus!
