use vstd::prelude::*;
use vstd::utf8::{encode_utf8, encode_scalar};
use crate::codec::{
    decode_cell, decode_column, encode_cell, encode_column, fit_bytes, int_bytes, width, zeros,
};
use crate::model::{
    CellValue, EntityView, TableView, Type, find_attr, find_value, find_value_from, has_attr,
    lemma_find_attr_spec,
};
use crate::engine::{EngineView, FileKey, find_table, find_table_from, lemma_find_table_spec};
use crate::semantics::{
    Loaded, append_file, check_attrs, check_known, insert_result, load_columns, project,
    row_count, row_entity, select_result, select_rows, store_data, type_matches, validate,
    first_unknown, write_one, write_columns, delete_result, kept_values, count_matches,
    row_matches, create_table_result, create_files, drop_table_result, tables_without,
    update_result, updated_values, last_update_for, first_unknown_update, lemma_count_matches, any_match,
    lemma_check_known,
    };
use crate::engine::has_table;
use crate::model::Condition;
use crate::messages::{msg_table_exists, msg_no_table};
use crate::query::{all_hold, cond_holds};
use crate::text::{lossy_text, trim_nul};
use crate::protocol::{frame, u32_be_bytes, u32_from_be};

verus! {

/// `k` NUL characters.
pub open spec fn nuls(k: nat) -> Seq<char> {
    Seq::new(k, |i: int| '\0')
}

pub(crate) proof fn lemma_encode_utf8_concat(a: Seq<char>, b: Seq<char>)
    ensures
        encode_utf8(a + b) == encode_utf8(a) + encode_utf8(b),
    decreases a.len(),
{
    if a.len() == 0 {
        assert(a + b =~= b);
    } else {
        assert((a + b).drop_first() =~= a.drop_first() + b);
        assert((a + b)[0] == a[0]);
        lemma_encode_utf8_concat(a.drop_first(), b);
    }
}

pub(crate) proof fn lemma_encode_nuls(k: nat)
    ensures
        encode_utf8(nuls(k)) == zeros(k),
    decreases k,
{
    if k > 0 {
        assert(nuls(k).drop_first() =~= nuls((k - 1) as nat));
        lemma_encode_nuls((k - 1) as nat);
        assert(('\0' as u32) == 0u32);
        assert(encode_scalar(0u32) =~= seq![0u8]) by {
            assert((0u32 & 0x7Fu32) as u8 == 0u8) by (bit_vector);
        }
        assert(seq![0u8] + zeros((k - 1) as nat) =~= zeros(k));
    }
}

pub(crate) proof fn lemma_trim_nuls(s: Seq<char>, k: nat)
    requires
        s.len() == 0 || s.last() != '\0',
    ensures
        trim_nul(s + nuls(k)) == s,
    decreases k,
{
    if k == 0 {
        assert(s + nuls(0) =~= s);
    } else {
        assert((s + nuls(k)).drop_last() =~= s + nuls((k - 1) as nat));
        lemma_trim_nuls(s, (k - 1) as nat);
    }
}

/// Every integer reads back as written: its four bytes decode to itself.
pub proof fn law_int_cell_roundtrip(v: i32)
    ensures
        encode_cell(Type::Int, CellValue::Int(v)) == Some(int_bytes(v)),
        int_bytes(v).len() == 4,
        decode_cell(Type::Int, int_bytes(v)) == CellValue::Int(v),
{
    vstd::bytes::lemma_auto_spec_u32_to_from_le_bytes();
    let u: u32 = #[verifier::truncate] (v as u32);
    assert(vstd::bytes::spec_u32_to_le_bytes(u).len() == 4);
    assert(vstd::bytes::spec_u32_from_le_bytes(vstd::bytes::spec_u32_to_le_bytes(u)) == u);
    assert(((#[verifier::truncate] (v as u32)) as i32) == v) by (bit_vector);
}

/// A text whose UTF-8 encoding fits in the column's width, and that does not
/// end with a NUL character, reads back as written.
pub proof fn law_text_cell_roundtrip(s: Seq<char>, n: usize)
    requires
        encode_utf8(s).len() <= n,
        s.len() == 0 || s.last() != '\0',
    ensures
        encode_cell(Type::VarChar(n), CellValue::VarChar(s)) is Some,
        decode_cell(Type::VarChar(n), encode_cell(Type::VarChar(n), CellValue::VarChar(s))->0)
            == CellValue::VarChar(s),
{
    let k = (n - encode_utf8(s).len()) as nat;
    let padded = s + nuls(k);
    lemma_encode_utf8_concat(s, nuls(k));
    lemma_encode_nuls(k);
    let bytes = fit_bytes(encode_utf8(s), n as nat);
    if encode_utf8(s).len() == n {
        assert(bytes =~= encode_utf8(s));
        assert(nuls(0) + Seq::<char>::empty() =~= nuls(0));
        assert(padded =~= s);
    }
    assert(bytes =~= encode_utf8(padded));
    vstd::utf8::encode_utf8_valid_utf8(padded);
    vstd::utf8::encode_utf8_decode_utf8(padded);
    assert(lossy_text(bytes) == padded);
    lemma_trim_nuls(s, k);
}

/// Every cell that a value of the column's type encodes to takes exactly the
/// column's width.
pub proof fn law_encoded_cell_width(t: Type, v: CellValue)
    requires
        encode_cell(t, v) is Some,
    ensures
        encode_cell(t, v)->0.len() == width(t),
{
    vstd::bytes::lemma_auto_spec_u32_to_from_le_bytes();
}

/// Reading a column file whose first part holds whole cells: the values of
/// the first part, then those of the rest.
pub proof fn law_decode_column_concat(t: Type, a: Seq<u8>, b: Seq<u8>, k: nat)
    requires
        width(t) > 0,
        a.len() == k * width(t),
    ensures
        decode_column(t, a + b) == decode_column(t, a) + decode_column(t, b),
    decreases k,
{
    let w = width(t);
    if k == 0 {
        assert(a.len() == 0) by (nonlinear_arith)
            requires
                a.len() == k * w,
                k == 0,
        ;
        assert(a =~= Seq::<u8>::empty());
        assert(a + b =~= b);
        assert(decode_column(t, a) =~= Seq::<CellValue>::empty());
        assert(decode_column(t, a) + decode_column(t, b) =~= decode_column(t, b));
    } else {
        assert(a.len() == (k - 1) * w + w && (k - 1) * w >= 0) by (nonlinear_arith)
            requires
                a.len() == k * w,
                k >= 1,
        ;
        let a2 = a.subrange(w as int, a.len() as int);
        assert((a + b).subrange(0, w as int) =~= a.subrange(0, w as int));
        assert((a + b).subrange(w as int, (a + b).len() as int) =~= a2 + b);
        law_decode_column_concat(t, a2, b, (k - 1) as nat);
        assert(decode_column(t, a + b) =~= decode_column(t, a) + decode_column(t, b));
    }
}

/// Reading one whole cell gives one value.
pub proof fn law_decode_one_cell(t: Type, cell: Seq<u8>)
    requires
        width(t) > 0,
        cell.len() == width(t),
    ensures
        decode_column(t, cell) == seq![decode_cell(t, cell)],
{
    let w = width(t);
    assert(cell.subrange(0, w as int) =~= cell);
    let rest = cell.subrange(w as int, cell.len() as int);
    assert(decode_column(t, rest) =~= Seq::<CellValue>::empty());
    assert(decode_column(t, cell) =~= seq![decode_cell(t, cell)]);
}

/// A column file of `k` whole cells holds `k` values.
pub proof fn law_decode_column_len(t: Type, a: Seq<u8>, k: nat)
    requires
        width(t) > 0,
        a.len() == k * width(t),
    ensures
        decode_column(t, a).len() == k,
    decreases k,
{
    let w = width(t);
    if k == 0 {
        assert(a.len() == 0) by (nonlinear_arith)
            requires
                a.len() == k * w,
                k == 0,
        ;
    } else {
        assert(a.len() == (k - 1) * w + w && (k - 1) * w >= 0) by (nonlinear_arith)
            requires
                a.len() == k * w,
                k >= 1,
        ;
        law_decode_column_len(t, a.subrange(w as int, a.len() as int), (k - 1) as nat);
    }
}

/// A frame's header announces its body's length, and the body follows it,
/// for every body shorter than 2^32 bytes.
pub proof fn law_frame_roundtrip(body: Seq<u8>)
    requires
        body.len() < 0x1_0000_0000,
    ensures
        frame(body).len() == body.len() + 4,
        u32_from_be(frame(body).subrange(0, 4)) == body.len(),
        frame(body).subrange(4, frame(body).len() as int) == body,
{
    let x = body.len() as u32;
    assert(x == body.len());
    let h = frame(body).subrange(0, 4);
    assert(h =~= u32_be_bytes(x));
    assert(((((x >> 24u32) & 0xffu32) as u8) as u32) << 24u32 | ((((x >> 16u32) & 0xffu32) as u8) as u32)
        << 16u32 | ((((x >> 8u32) & 0xffu32) as u8) as u32) << 8u32 | (((x & 0xffu32) as u8) as u32)
        == x) by (bit_vector);
    assert(frame(body).subrange(4, frame(body).len() as int) =~= body);
}


/// The names of the columns of `t`, in order.
pub open spec fn attr_names(t: TableView) -> Seq<Seq<char>> {
    t.attrs.map_values(|a: (Seq<char>, Type)| a.0)
}

/// Whether no two values of `data` share a name.
pub open spec fn distinct_data(data: Seq<(Seq<char>, CellValue)>) -> bool {
    forall|i: int, j: int| 0 <= i < j < data.len() ==> data[i].0 != data[j].0
}

/// The table of `tables` that a lookup of `name` finds.
pub open spec fn table_named(tables: Seq<TableView>, name: Seq<char>) -> TableView {
    tables[find_table(tables, name)->0]
}

/// Whether every column of `t` has a file of `m` whole cells.
pub open spec fn holds_rows(files: Map<FileKey, Seq<u8>>, t: TableView, m: nat) -> bool {
    forall|j: int|
        0 <= j < t.attrs.len() ==> {
            &&& width(#[trigger] t.attrs[j].1) > 0
            &&& files.contains_key((t.name, t.attrs[j].0))
            &&& files[(t.name, t.attrs[j].0)].len() == m * width(t.attrs[j].1)
        }
}

/// Whether every column of `t` has a file that holds `m` whole cells, perhaps
/// followed by a partial one.
pub open spec fn holds_records(files: Map<FileKey, Seq<u8>>, t: TableView, m: nat) -> bool {
    forall|j: int|
        0 <= j < t.attrs.len() ==> {
            &&& width(#[trigger] t.attrs[j].1) > 0
            &&& files.contains_key((t.name, t.attrs[j].0))
            &&& decode_column(t.attrs[j].1, files[(t.name, t.attrs[j].0)]).len() == m
        }
}

/// Files of exactly `m` whole cells hold `m` records.
pub proof fn law_rows_are_records(files: Map<FileKey, Seq<u8>>, t: TableView, m: nat)
    requires
        holds_rows(files, t, m),
    ensures
        holds_records(files, t, m),
{
    assert forall|j: int| 0 <= j < t.attrs.len() implies {
        &&& width(#[trigger] t.attrs[j].1) > 0
        &&& files.contains_key((t.name, t.attrs[j].0))
        &&& decode_column(t.attrs[j].1, files[(t.name, t.attrs[j].0)]).len() == m
    } by {
        law_decode_column_len(t.attrs[j].1, files[(t.name, t.attrs[j].0)], m);
    }
}

/// Whether the columns of `t` that share a name (and so a file) have the
/// same type.
pub open spec fn names_agree(t: TableView) -> bool {
    forall|i: int, j: int|
        #![trigger t.attrs[i], t.attrs[j]]
        0 <= i < t.attrs.len() && 0 <= j < t.attrs.len() && t.attrs[i].0 == t.attrs[j].0
            ==> t.attrs[i].1 == t.attrs[j].1
}

/// What a value of a column of type `ty` reads back as once written.
pub open spec fn normalized(ty: Type, v: CellValue) -> CellValue {
    match encode_cell(ty, v) {
        Some(b) => decode_cell(ty, b),
        None => v,
    }
}

/// The row that inserting `data` into `t` adds, as it reads back.
pub open spec fn stored_row(t: TableView, data: Seq<(Seq<char>, CellValue)>) -> EntityView {
    EntityView {
        of: t.name,
        data: Seq::new(
            t.attrs.len(),
            |j: int| (t.attrs[j].0, normalized(t.attrs[j].1, find_value(data, t.attrs[j].0)->0)),
        ),
    }
}

/// The bytes that value `v` named `name` takes in the file of its column of `t`.
pub open spec fn cell_bytes(t: TableView, name: Seq<char>, v: CellValue) -> Seq<u8> {
    encode_cell(t.attrs[find_attr(t.attrs, name)->0].1, v)->0
}

/// The files after appending each value of `data` (distinct names) to its column's file.
pub open spec fn after_store(
    files: Map<FileKey, Seq<u8>>,
    t: TableView,
    data: Seq<(Seq<char>, CellValue)>,
) -> Map<FileKey, Seq<u8>> {
    Map::new(
        |k: FileKey| files.contains_key(k) || (k.0 == t.name && find_value(data, k.1) is Some),
        |k: FileKey|
            if k.0 == t.name && find_value(data, k.1) is Some {
                (if files.contains_key(k) {
                    files[k]
                } else {
                    Seq::empty()
                }) + cell_bytes(t, k.1, find_value(data, k.1)->0)
            } else {
                files[k]
            },
    )
}

pub(crate) proof fn lemma_find_value_shift(data: Seq<(Seq<char>, CellValue)>, n: Seq<char>, i: int)
    requires
        data.len() > 0,
        0 <= i,
    ensures
        find_value_from(data, n, i + 1) == find_value_from(data.drop_first(), n, i),
    decreases data.len() - i,
{
    if i + 1 < data.len() {
        assert(data[i + 1] == data.drop_first()[i]);
        lemma_find_value_shift(data, n, i + 1);
    }
}

pub(crate) proof fn lemma_find_value_first(data: Seq<(Seq<char>, CellValue)>, n: Seq<char>)
    requires
        data.len() > 0,
    ensures
        find_value(data, n) == if data[0].0 == n {
            Some(data[0].1)
        } else {
            find_value(data.drop_first(), n)
        },
{
    lemma_find_value_shift(data, n, 0);
}

pub(crate) proof fn lemma_find_value_distinct(data: Seq<(Seq<char>, CellValue)>, p: int)
    requires
        distinct_data(data),
        0 <= p < data.len(),
    ensures
        find_value(data, data[p].0) == Some(data[p].1),
    decreases p,
{
    lemma_find_value_first(data, data[p].0);
    if p > 0 {
        let rest = data.drop_first();
        assert(rest[p - 1] == data[p]);
        assert(distinct_data(rest)) by {
            assert forall|i: int, j: int| 0 <= i < j < rest.len() implies rest[i].0 != rest[j].0 by {
                assert(rest[i] == data[i + 1] && rest[j] == data[j + 1]);
            }
        }
        lemma_find_value_distinct(rest, p - 1);
    }
}

pub(crate) proof fn lemma_find_value_absent(data: Seq<(Seq<char>, CellValue)>, n: Seq<char>, i: int)
    requires
        0 <= i,
        forall|p: int| i <= p < data.len() ==> data[p].0 != n,
    ensures
        find_value_from(data, n, i) is None,
    decreases data.len() - i,
{
    if i < data.len() {
        lemma_find_value_absent(data, n, i + 1);
    }
}

pub(crate) proof fn lemma_find_value_present(data: Seq<(Seq<char>, CellValue)>, n: Seq<char>, i: int)
    requires
        0 <= i,
    ensures
        find_value_from(data, n, i) matches Some(v) ==> exists|p: int|
            i <= p < data.len() && data[p].0 == n && data[p].1 == v,
    decreases data.len() - i,
{
    if 0 <= i < data.len() {
        lemma_find_value_present(data, n, i + 1);
    }
}

pub(crate) proof fn lemma_check_attrs(attrs: Seq<(Seq<char>, Type)>, data: Seq<(Seq<char>, CellValue)>)
    requires
        check_attrs(attrs, data) is Ok,
    ensures
        forall|j: int|
            0 <= j < attrs.len() ==> (find_value(data, #[trigger] attrs[j].0) matches Some(v)
                && type_matches(attrs[j].1, v)),
    decreases attrs.len(),
{
    if attrs.len() > 0 {
        lemma_check_attrs(attrs.drop_first(), data);
        assert forall|j: int| 0 <= j < attrs.len() implies (find_value(data, #[trigger] attrs[j].0) matches Some(v)
            && type_matches(attrs[j].1, v)) by {
            if j > 0 {
                assert(attrs[j] == attrs.drop_first()[j - 1]);
            }
        }
    }
}

/// Whether every value of `data` names a column of `t` and has the type of the
/// first column of that name.
pub open spec fn insertable(t: TableView, data: Seq<(Seq<char>, CellValue)>) -> bool {
    forall|p: int|
        0 <= p < data.len() ==> {
            &&& has_attr(t.attrs, #[trigger] data[p].0)
            &&& type_matches(t.attrs[find_attr(t.attrs, data[p].0)->0].1, data[p].1)
        }
}

pub(crate) proof fn lemma_store_distinct(
    files: Map<FileKey, Seq<u8>>,
    t: TableView,
    data: Seq<(Seq<char>, CellValue)>,
)
    requires
        distinct_data(data),
        insertable(t, data),
    ensures
        store_data(files, t, data) == (after_store(files, t, data), Ok::<(), Seq<char>>(())),
    decreases data.len(),
{
    if data.len() == 0 {
        assert(after_store(files, t, data) =~= files);
    } else {
        let d = data[0];
        let rest = data.drop_first();
        lemma_find_attr_spec(t.attrs, d.0);
        let i = find_attr(t.attrs, d.0)->0;
        assert(has_attr(t.attrs, d.0));
        assert(type_matches(t.attrs[i].1, d.1));
        let b = encode_cell(t.attrs[i].1, d.1)->0;
        let k0 = (t.name, d.0);
        let files1 = append_file(files, k0, b);
        assert(distinct_data(rest)) by {
            assert forall|x: int, y: int| 0 <= x < y < rest.len() implies rest[x].0 != rest[y].0 by {
                assert(rest[x] == data[x + 1] && rest[y] == data[y + 1]);
            }
        }
        assert(insertable(t, rest)) by {
            assert forall|p: int| 0 <= p < rest.len() implies {
                &&& has_attr(t.attrs, #[trigger] rest[p].0)
                &&& type_matches(t.attrs[find_attr(t.attrs, rest[p].0)->0].1, rest[p].1)
            } by {
                assert(rest[p] == data[p + 1]);
            }
        }
        lemma_store_distinct(files1, t, rest);
        assert(find_value(rest, d.0) is None) by {
            assert forall|p: int| 0 <= p < rest.len() implies rest[p].0 != d.0 by {
                assert(rest[p] == data[p + 1]);
            }
            lemma_find_value_absent(rest, d.0, 0);
        }
        assert forall|k: FileKey| #![auto] true implies find_value(data, k.1) == if d.0 == k.1 {
            Some(d.1)
        } else {
            find_value(rest, k.1)
        } by {
            lemma_find_value_first(data, k.1);
        }
        assert(after_store(files1, t, rest) =~= after_store(files, t, data));
    }
}

pub(crate) proof fn lemma_load_all(files: Map<FileKey, Seq<u8>>, tname: Seq<char>, attrs: Seq<(Seq<char>, Type)>)
    requires
        forall|j: int|
            0 <= j < attrs.len() ==> width(#[trigger] attrs[j].1) > 0 && files.contains_key(
                (tname, attrs[j].0),
            ),
    ensures
        load_columns(files, tname, attrs) == Loaded::Columns(
            Seq::new(attrs.len(), |j: int| decode_column(attrs[j].1, files[(tname, attrs[j].0)])),
        ),
    decreases attrs.len(),
{
    if attrs.len() > 0 {
        let rest = attrs.drop_first();
        assert forall|j: int| 0 <= j < rest.len() implies width(#[trigger] rest[j].1) > 0
            && files.contains_key((tname, rest[j].0)) by {
            assert(rest[j] == attrs[j + 1]);
        }
        lemma_load_all(files, tname, rest);
        assert(width(attrs[0].1) > 0);
        assert(seq![decode_column(attrs[0].1, files[(tname, attrs[0].0)])] + Seq::new(
            rest.len(),
            |j: int| decode_column(rest[j].1, files[(tname, rest[j].0)]),
        ) =~= Seq::new(attrs.len(), |j: int| decode_column(attrs[j].1, files[(tname, attrs[j].0)])));
    } else {
        assert(Seq::new(attrs.len(), |j: int| decode_column(attrs[j].1, files[(tname, attrs[j].0)]))
            =~= Seq::<Seq<CellValue>>::empty());
    }
}

pub(crate) proof fn lemma_select_rows_prefix(
    t: TableView,
    c1: Seq<Seq<CellValue>>,
    c2: Seq<Seq<CellValue>>,
    names: Seq<Seq<char>>,
    conds: Seq<crate::model::Condition>,
    n: nat,
)
    requires
        c1.len() == c2.len(),
        forall|j: int, r: int| 0 <= j < c1.len() && 0 <= r < n ==> c1[j][r] == c2[j][r],
        c1.len() == t.attrs.len(),
    ensures
        select_rows(t, c1, names, conds, n) == select_rows(t, c2, names, conds, n),
    decreases n,
{
    if n > 0 {
        lemma_select_rows_prefix(t, c1, c2, names, conds, (n - 1) as nat);
        assert(row_entity(t, c1, n - 1).data =~= row_entity(t, c2, n - 1).data);
    }
}

pub(crate) proof fn lemma_project_all(data: Seq<(Seq<char>, CellValue)>, names: Seq<Seq<char>>)
    requires
        forall|i: int| 0 <= i < data.len() ==> names.contains(#[trigger] data[i].0),
    ensures
        project(data, names) == data,
    decreases data.len(),
{
    if data.len() > 0 {
        let init = data.drop_last();
        assert forall|i: int| 0 <= i < init.len() implies names.contains(#[trigger] init[i].0) by {
            assert(init[i] == data[i]);
        }
        lemma_project_all(init, names);
        assert(names.contains(data[data.len() - 1].0));
        assert(init.push(data.last()) =~= data);
    }
}

pub(crate) proof fn lemma_first_unknown_none(attrs: Seq<(Seq<char>, Type)>, names: Seq<Seq<char>>)
    requires
        forall|i: int| 0 <= i < names.len() ==> has_attr(attrs, #[trigger] names[i]),
    ensures
        first_unknown(attrs, names) is None,
    decreases names.len(),
{
    if names.len() > 0 {
        let rest = names.drop_first();
        assert forall|i: int| 0 <= i < rest.len() implies has_attr(attrs, #[trigger] rest[i]) by {
            assert(rest[i] == names[i + 1]);
        }
        assert(has_attr(attrs, names[0]));
        lemma_first_unknown_none(attrs, rest);
    }
}

/// Inserting a row and then selecting every column with no condition gives
/// the rows selected before, then the inserted row as it reads back: for a
/// table whose columns have positive widths, the same type where they share a
/// name, and files of the same number of whole cells, and a row that
/// validates and names each column once.
pub proof fn law_insert_then_select(e: EngineView, ent: EntityView, m: nat)
    requires
        find_table(e.tables, ent.of) is Some,
        table_named(e.tables, ent.of).attrs.len() > 0,
        names_agree(table_named(e.tables, ent.of)),
        distinct_data(ent.data),
        validate(table_named(e.tables, ent.of), ent.data) is Ok,
        holds_rows(e.files, table_named(e.tables, ent.of), m),
    ensures
        insert_result(e, ent).1 is Ok,
        insert_result(e, ent).0.tables == e.tables,
        holds_rows(insert_result(e, ent).0.files, table_named(e.tables, ent.of), m + 1),
        select_result(e, ent.of, attr_names(table_named(e.tables, ent.of)), Seq::empty()) is Ok,
        select_result(
            insert_result(e, ent).0,
            ent.of,
            attr_names(table_named(e.tables, ent.of)),
            Seq::empty(),
        ) == Ok::<Seq<EntityView>, Seq<char>>(
            select_result(e, ent.of, attr_names(table_named(e.tables, ent.of)), Seq::empty())->Ok_0.push(
                stored_row(table_named(e.tables, ent.of), ent.data),
            ),
        ),
{
    let t = table_named(e.tables, ent.of);
    let data = ent.data;
    let names = attr_names(t);
    let conds = Seq::<crate::model::Condition>::empty();
    lemma_find_table_spec(e.tables, ent.of);
    assert(t.name == ent.of);
    assert(check_attrs(t.attrs, data) is Ok);
    lemma_check_attrs(t.attrs, data);
    lemma_check_known(t.attrs, data);
    // every value names a column and has the type of that column
    assert(insertable(t, data)) by {
        assert forall|p: int| 0 <= p < data.len() implies {
            &&& has_attr(t.attrs, #[trigger] data[p].0)
            &&& type_matches(t.attrs[find_attr(t.attrs, data[p].0)->0].1, data[p].1)
        } by {
            lemma_find_attr_spec(t.attrs, data[p].0);
            let j = find_attr(t.attrs, data[p].0)->0;
            lemma_find_value_distinct(data, p);
            assert(t.attrs[j].0 == data[p].0);
        }
    }
    lemma_store_distinct(e.files, t, data);
    let files2 = after_store(e.files, t, data);
    let e2 = insert_result(e, ent).0;
    assert(e2.files == files2);
    // each column's file gains exactly one cell
    assert forall|j: int| 0 <= j < t.attrs.len() implies {
        &&& find_attr(t.attrs, t.attrs[j].0) matches Some(f) && t.attrs[f].1 == t.attrs[j].1
        &&& (find_value(data, #[trigger] t.attrs[j].0) matches Some(v) && encode_cell(t.attrs[j].1, v) is Some
            && files2[(t.name, t.attrs[j].0)] == e.files[(t.name, t.attrs[j].0)] + encode_cell(
            t.attrs[j].1,
            v,
        )->0 && encode_cell(t.attrs[j].1, v)->0.len() == width(t.attrs[j].1))
    } by {
        lemma_find_attr_spec(t.attrs, t.attrs[j].0);
        let f = find_attr(t.attrs, t.attrs[j].0)->0;
        assert(t.attrs[f].1 == t.attrs[j].1);
        let v = find_value(data, t.attrs[j].0)->0;
        law_encoded_cell_width(t.attrs[j].1, v);
    }
    assert(holds_rows(files2, t, m + 1)) by {
        assert forall|j: int| 0 <= j < t.attrs.len() implies {
            &&& width(#[trigger] t.attrs[j].1) > 0
            &&& files2.contains_key((t.name, t.attrs[j].0))
            &&& files2[(t.name, t.attrs[j].0)].len() == (m + 1) * width(t.attrs[j].1)
        } by {
            let w = width(t.attrs[j].1);
            assert(find_value(data, t.attrs[j].0) is Some);
            assert((m + 1) * w == m * w + w) by (nonlinear_arith);
        }
    }
    // load the columns before and after
    lemma_load_all(e.files, t.name, t.attrs);
    lemma_load_all(files2, t.name, t.attrs);
    let cs = Seq::new(t.attrs.len(), |j: int| decode_column(t.attrs[j].1, e.files[(t.name, t.attrs[j].0)]));
    let cs2 = Seq::new(t.attrs.len(), |j: int| decode_column(t.attrs[j].1, files2[(t.name, t.attrs[j].0)]));
    assert forall|j: int| 0 <= j < t.attrs.len() implies {
        &&& (#[trigger] cs[j]).len() == m
        &&& cs2[j].len() == m + 1
        &&& cs2[j] == cs[j].push(normalized(t.attrs[j].1, find_value(data, t.attrs[j].0)->0))
    } by {
        let ty = t.attrs[j].1;
        let v = find_value(data, t.attrs[j].0)->0;
        let old_bytes = e.files[(t.name, t.attrs[j].0)];
        let b = encode_cell(ty, v)->0;
        law_decode_column_len(ty, old_bytes, m);
        law_decode_column_concat(ty, old_bytes, b, m);
        law_decode_one_cell(ty, b);
        assert(cs2[j] =~= cs[j].push(normalized(ty, v)));
    }
    assert(row_count(cs) == m);
    assert(row_count(cs2) == m + 1);
    // the selects
    assert forall|i: int| 0 <= i < names.len() implies has_attr(t.attrs, #[trigger] names[i]) by {
        assert(names[i] == t.attrs[i].0);
    }
    lemma_first_unknown_none(t.attrs, names);
    assert(select_result(e, ent.of, names, conds) == Ok::<Seq<EntityView>, Seq<char>>(select_rows(t, cs, names, conds, m)));
    assert(select_result(e2, ent.of, names, conds) == Ok::<Seq<EntityView>, Seq<char>>(select_rows(t, cs2, names, conds, m + 1)));
    lemma_select_rows_prefix(t, cs2, cs, names, conds, m);
    let row = row_entity(t, cs2, m as int);
    assert(all_hold(row.data, conds));
    assert forall|i: int| 0 <= i < row.data.len() implies names.contains(#[trigger] row.data[i].0) by {
        assert(names[i] == row.data[i].0);
    }
    lemma_project_all(row.data, names);
    assert forall|j: int| 0 <= j < t.attrs.len() implies #[trigger] cs2[j][m as int] == normalized(
        t.attrs[j].1,
        find_value(data, t.attrs[j].0)->0,
    ) by {
        assert(cs[j].len() == m);
    }
    assert(row.data =~= stored_row(t, data).data);
}


/// Each value of `vals` as it reads back from a column of type `ty`.
pub open spec fn normalized_all(ty: Type, vals: Seq<CellValue>) -> Seq<CellValue> {
    vals.map_values(|v: CellValue| normalized(ty, v))
}

/// Writing values of the column's type, then reading them, gives each value
/// as it reads back; the file holds one whole cell per value.
pub proof fn law_column_write_read(ty: Type, vals: Seq<CellValue>)
    requires
        width(ty) > 0,
        forall|i: int| 0 <= i < vals.len() ==> type_matches(ty, #[trigger] vals[i]),
    ensures
        encode_column(ty, vals).1,
        encode_column(ty, vals).0.len() == vals.len() * width(ty),
        decode_column(ty, encode_column(ty, vals).0) == normalized_all(ty, vals),
    decreases vals.len(),
{
    let w = width(ty);
    if vals.len() == 0 {
        assert(decode_column(ty, Seq::<u8>::empty()) =~= Seq::<CellValue>::empty());
        assert(normalized_all(ty, vals) =~= Seq::<CellValue>::empty());
    } else {
        let rest = vals.drop_first();
        assert forall|i: int| 0 <= i < rest.len() implies type_matches(ty, #[trigger] rest[i]) by {
            assert(rest[i] == vals[i + 1]);
        }
        law_column_write_read(ty, rest);
        assert(type_matches(ty, vals[0]));
        assert(encode_cell(ty, vals[0]) is Some);
        let b = encode_cell(ty, vals[0])->0;
        law_encoded_cell_width(ty, vals[0]);
        assert(b.len() == 1 * w);
        law_decode_column_concat(ty, b, encode_column(ty, rest).0, 1);
        law_decode_one_cell(ty, b);
        assert(vals.len() * w == w + rest.len() * w) by (nonlinear_arith)
            requires
                vals.len() == rest.len() + 1,
        ;
        assert(decode_column(ty, encode_column(ty, vals).0) =~= normalized_all(ty, vals));
    }
}

/// Every value read from a column has the column's type.
pub proof fn law_decoded_types(ty: Type, bytes: Seq<u8>)
    ensures
        forall|i: int|
            0 <= i < decode_column(ty, bytes).len() ==> type_matches(
                ty,
                #[trigger] decode_column(ty, bytes)[i],
            ),
    decreases bytes.len(),
{
    let w = width(ty);
    if w > 0 && bytes.len() >= w {
        let rest = bytes.subrange(w as int, bytes.len() as int);
        law_decoded_types(ty, rest);
        let d = decode_column(ty, bytes);
        assert forall|i: int| 0 <= i < d.len() implies type_matches(ty, #[trigger] d[i]) by {
            if i > 0 {
                assert(d[i] == decode_column(ty, rest)[i - 1]);
            }
        }
    }
}

/// Whether each value of `vals` reads back as itself once written.
pub open spec fn stable(ty: Type, vals: Seq<CellValue>) -> bool {
    forall|i: int| 0 <= i < vals.len() ==> normalized(ty, #[trigger] vals[i]) == vals[i]
}

pub(crate) proof fn lemma_write_columns(
    files: Map<FileKey, Seq<u8>>,
    tname: Seq<char>,
    attrs: Seq<(Seq<char>, Type)>,
    cols: Seq<Seq<CellValue>>,
)
    requires
        cols.len() == attrs.len(),
        forall|i: int, j: int|
            #![trigger attrs[i], attrs[j]]
            0 <= i < attrs.len() && 0 <= j < attrs.len() && attrs[i].0 == attrs[j].0 ==> attrs[i].1
                == attrs[j].1 && cols[i] == cols[j],
        forall|c: int|
            0 <= c < attrs.len() ==> width(#[trigger] attrs[c].1) > 0 && files.contains_key(
                (tname, attrs[c].0),
            ),
        forall|c: int, i: int|
            0 <= c < attrs.len() && 0 <= i < cols[c].len() ==> type_matches(
                attrs[c].1,
                #[trigger] cols[c][i],
            ),
    ensures
        write_columns(files, tname, attrs, cols).1 is Ok,
        forall|k: FileKey|
            #![trigger write_columns(files, tname, attrs, cols).0.contains_key(k)]
            write_columns(files, tname, attrs, cols).0.contains_key(k) <==> files.contains_key(k),
        forall|c: int|
            0 <= c < attrs.len() ==> write_columns(files, tname, attrs, cols).0[(
                tname,
                #[trigger] attrs[c].0,
            )] == encode_column(attrs[c].1, cols[c]).0,
        forall|k: FileKey|
            #![trigger write_columns(files, tname, attrs, cols).0[k]]
            (forall|c: int| 0 <= c < attrs.len() ==> k != (tname, attrs[c].0))
                ==> write_columns(files, tname, attrs, cols).0[k] == files[k],
    decreases attrs.len(),
{
    if attrs.len() > 0 {
        let k0 = (tname, attrs[0].0);
        assert forall|i: int| 0 <= i < cols[0].len() implies type_matches(attrs[0].1, #[trigger] cols[0][i]) by {}
        law_column_write_read(attrs[0].1, cols[0]);
        let enc = encode_column(attrs[0].1, cols[0]);
        let files1 = files.insert(k0, enc.0);
        assert(write_one(files, k0, attrs[0].1, cols[0]) == (files1, Ok::<(), Seq<char>>(())));
        let ra = attrs.drop_first();
        let rc = cols.drop_first();
        assert forall|i: int, j: int|
            #![trigger ra[i], ra[j]]
            0 <= i < ra.len() && 0 <= j < ra.len() && ra[i].0 == ra[j].0 implies ra[i].1 == ra[j].1
                && rc[i] == rc[j] by {
            assert(ra[i] == attrs[i + 1] && ra[j] == attrs[j + 1]);
            assert(rc[i] == cols[i + 1] && rc[j] == cols[j + 1]);
        }
        assert forall|c: int| 0 <= c < ra.len() implies width(#[trigger] ra[c].1) > 0 && files1.contains_key(
            (tname, ra[c].0),
        ) by {
            assert(ra[c] == attrs[c + 1]);
        }
        assert forall|c: int, i: int| 0 <= c < ra.len() && 0 <= i < rc[c].len() implies type_matches(
            ra[c].1,
            #[trigger] rc[c][i],
        ) by {
            assert(ra[c] == attrs[c + 1] && rc[c] == cols[c + 1]);
            assert(type_matches(attrs[c + 1].1, cols[c + 1][i]));
        }
        lemma_write_columns(files1, tname, ra, rc);
        let out = write_columns(files, tname, attrs, cols).0;
        let out1 = write_columns(files1, tname, ra, rc).0;
        assert(out == out1);
        assert forall|c: int| 0 <= c < attrs.len() implies out[(tname, #[trigger] attrs[c].0)] == encode_column(
            attrs[c].1,
            cols[c],
        ).0 by {
            if c == 0 {
                if exists|d: int| 0 <= d < ra.len() && k0 == (tname, ra[d].0) {
                    let d = choose|d: int| 0 <= d < ra.len() && k0 == (tname, ra[d].0);
                    assert(ra[d] == attrs[d + 1] && rc[d] == cols[d + 1]);
                    assert(attrs[0].1 == attrs[d + 1].1 && cols[0] == cols[d + 1]);
                    assert(out1[(tname, ra[d].0)] == encode_column(ra[d].1, rc[d]).0);
                } else {
                    assert(out1[k0] == files1[k0]);
                }
            } else {
                assert(ra[c - 1] == attrs[c] && rc[c - 1] == cols[c]);
                assert(out1[(tname, ra[c - 1].0)] == encode_column(ra[c - 1].1, rc[c - 1]).0);
            }
        }
        assert forall|k: FileKey| (forall|c: int| 0 <= c < attrs.len() ==> k != (tname, attrs[c].0))
            implies #[trigger] out[k] == files[k] by {
            assert forall|d: int| 0 <= d < ra.len() implies k != (tname, ra[d].0) by {
                assert(ra[d] == attrs[d + 1]);
                assert(k != (tname, attrs[d + 1].0));
            }
            assert(k != (tname, attrs[0].0));
            assert(out1[k] == files1[k]);
        }
        assert forall|k: FileKey| #[trigger] out.contains_key(k) <==> files.contains_key(k) by {
            assert(out1.contains_key(k) <==> files1.contains_key(k));
        }
    }
}

/// The rows of `rows` that do not meet `conds`, in order.
pub open spec fn rows_not_matching(rows: Seq<EntityView>, conds: Seq<Condition>) -> Seq<EntityView>
    decreases rows.len(),
{
    if rows.len() == 0 {
        rows
    } else {
        let prev = rows_not_matching(rows.drop_last(), conds);
        if all_hold(rows.last().data, conds) {
            prev
        } else {
            prev.push(rows.last())
        }
    }
}

pub(crate) proof fn lemma_kept_len(col: Seq<CellValue>, t: TableView, cs: Seq<Seq<CellValue>>, conds: Seq<Condition>, n: nat)
    ensures
        kept_values(col, t, cs, conds, n).len() + count_matches(t, cs, conds, n) == n,
    decreases n,
{
    if n > 0 {
        lemma_kept_len(col, t, cs, conds, (n - 1) as nat);
    }
}

pub(crate) proof fn lemma_kept_rows(
    t: TableView,
    cs: Seq<Seq<CellValue>>,
    names: Seq<Seq<char>>,
    conds: Seq<Condition>,
    n: nat,
)
    requires
        names == attr_names(t),
        cs.len() == t.attrs.len(),
        t.attrs.len() > 0,
        forall|c: int| 0 <= c < cs.len() ==> (#[trigger] cs[c]).len() >= n,
    ensures
        ({
            let kept = Seq::new(cs.len(), |c: int| kept_values(cs[c], t, cs, conds, n));
            select_rows(t, kept, names, Seq::empty(), kept[0].len()) == rows_not_matching(
                select_rows(t, cs, names, Seq::empty(), n),
                conds,
            )
        }),
    decreases n,
{
    let kept = Seq::new(cs.len(), |c: int| kept_values(cs[c], t, cs, conds, n));
    let empty = Seq::<Condition>::empty();
    if n == 0 {
        assert(kept[0].len() == 0);
    } else {
        let n1 = (n - 1) as nat;
        let kept1 = Seq::new(cs.len(), |c: int| kept_values(cs[c], t, cs, conds, n1));
        lemma_kept_rows(t, cs, names, conds, n1);
        let full = row_entity(t, cs, n1 as int);
        assert forall|i: int| 0 <= i < full.data.len() implies names.contains(#[trigger] full.data[i].0) by {
            assert(names[i] == full.data[i].0);
        }
        lemma_project_all(full.data, names);
        assert(all_hold(full.data, empty));
        let before = select_rows(t, cs, names, empty, n1);
        assert(select_rows(t, cs, names, empty, n) == before.push(full));
        assert(before.push(full).drop_last() =~= before);
        if row_matches(t, cs, conds, n1 as int) {
            assert(kept =~= kept1);
        } else {
            let len1 = kept1[0].len();
            assert forall|c: int| 0 <= c < cs.len() implies #[trigger] kept[c] == kept1[c].push(cs[c][n1 as int]) by {}
            lemma_kept_len(cs[0], t, cs, conds, n1);
            assert forall|c: int| 0 <= c < cs.len() implies (#[trigger] kept1[c]).len() == len1 by {
                lemma_kept_len(cs[c], t, cs, conds, n1);
            }
            lemma_select_rows_prefix(t, kept, kept1, names, empty, len1);
            assert(kept[0].len() == len1 + 1);
            let row = row_entity(t, kept, len1 as int);
            assert(row.data =~= full.data);
            assert forall|i: int| 0 <= i < row.data.len() implies names.contains(#[trigger] row.data[i].0) by {
                assert(names[i] == row.data[i].0);
            }
            lemma_project_all(row.data, names);
            assert(all_hold(row.data, empty));
        }
    }
}

/// Deleting the rows that meet `conds` and then selecting every column with no
/// condition gives the rows selected before that do not meet `conds`; the
/// count returned is the number of the others.  This holds for a table whose
/// columns have positive widths, the same type where they share a name, and
/// files of the same number of whole cells (a trailing partial cell is dropped
/// by the rewrite), each of which reads back as itself once rewritten.
pub proof fn law_delete_then_select(e: EngineView, name: Seq<char>, conds: Seq<Condition>, m: nat)
    requires
        find_table(e.tables, name) is Some,
        table_named(e.tables, name).attrs.len() > 0,
        names_agree(table_named(e.tables, name)),
        holds_records(e.files, table_named(e.tables, name), m),
        forall|c: int|
            0 <= c < table_named(e.tables, name).attrs.len() ==> stable(
                table_named(e.tables, name).attrs[c].1,
                decode_column(
                    #[trigger] table_named(e.tables, name).attrs[c].1,
                    e.files[(name, table_named(e.tables, name).attrs[c].0)],
                ),
            ),
    ensures
        select_result(e, name, attr_names(table_named(e.tables, name)), Seq::empty()) is Ok,
        delete_result(e, name, conds).1 is Ok,
        delete_result(e, name, conds).0.tables == e.tables,
        select_result(
            delete_result(e, name, conds).0,
            name,
            attr_names(table_named(e.tables, name)),
            Seq::empty(),
        ) == Ok::<Seq<EntityView>, Seq<char>>(
            rows_not_matching(
                select_result(e, name, attr_names(table_named(e.tables, name)), Seq::empty())->Ok_0,
                conds,
            ),
        ),
        select_result(e, name, attr_names(table_named(e.tables, name)), conds) is Ok,
        delete_result(e, name, conds).1 == Ok::<usize, Seq<char>>(
            select_result(e, name, attr_names(table_named(e.tables, name)), conds)->Ok_0.len() as usize,
        ),
        holds_rows(
            delete_result(e, name, conds).0.files,
            table_named(e.tables, name),
            rows_not_matching(
                select_result(e, name, attr_names(table_named(e.tables, name)), Seq::empty())->Ok_0,
                conds,
            ).len(),
        ),
        forall|c: int|
            0 <= c < table_named(e.tables, name).attrs.len() ==> stable(
                table_named(e.tables, name).attrs[c].1,
                decode_column(
                    #[trigger] table_named(e.tables, name).attrs[c].1,
                    delete_result(e, name, conds).0.files[(name, table_named(e.tables, name).attrs[c].0)],
                ),
            ),
        canonical(delete_result(e, name, conds).0.files, table_named(e.tables, name)),
{
    let t = table_named(e.tables, name);
    let names = attr_names(t);
    let empty = Seq::<Condition>::empty();
    lemma_find_table_spec(e.tables, name);
    assert(t.name == name);
    lemma_load_all(e.files, t.name, t.attrs);
    let cs = Seq::new(t.attrs.len(), |j: int| decode_column(t.attrs[j].1, e.files[(t.name, t.attrs[j].0)]));
    assert forall|j: int| 0 <= j < t.attrs.len() implies (#[trigger] cs[j]).len() == m by {}
    assert(row_count(cs) == m);
    assert forall|i: int| 0 <= i < names.len() implies has_attr(t.attrs, #[trigger] names[i]) by {
        assert(names[i] == t.attrs[i].0);
    }
    lemma_first_unknown_none(t.attrs, names);
    assert(select_result(e, name, names, empty) == Ok::<Seq<EntityView>, Seq<char>>(select_rows(t, cs, names, empty, m)));
    let kept = Seq::new(cs.len(), |c: int| kept_values(cs[c], t, cs, conds, m));
    // the kept values have their column's type and read back as themselves
    assert forall|c: int, i: int| 0 <= c < t.attrs.len() && 0 <= i < kept[c].len() implies type_matches(
        t.attrs[c].1,
        #[trigger] kept[c][i],
    ) && normalized(t.attrs[c].1, kept[c][i]) == kept[c][i] by {
        lemma_kept_subset(cs[c], t, cs, conds, m, i);
        let r = choose|r: int| 0 <= r < m && kept[c][i] == cs[c][r];
        law_decoded_types(t.attrs[c].1, e.files[(t.name, t.attrs[c].0)]);
        assert(type_matches(t.attrs[c].1, cs[c][r]));
        assert(normalized(t.attrs[c].1, cs[c][r]) == cs[c][r]);
    }
    assert forall|i: int, j: int|
        #![trigger t.attrs[i], t.attrs[j]]
        0 <= i < t.attrs.len() && 0 <= j < t.attrs.len() && t.attrs[i].0 == t.attrs[j].0 implies t.attrs[i].1
            == t.attrs[j].1 && kept[i] == kept[j] by {
        assert(cs[i] == cs[j]);
    }
    lemma_write_columns(e.files, t.name, t.attrs, kept);
    let files2 = write_columns(e.files, t.name, t.attrs, kept).0;
    let e2 = delete_result(e, name, conds).0;
    assert(e2.files == files2);
    assert forall|j: int| 0 <= j < t.attrs.len() implies width(#[trigger] t.attrs[j].1) > 0 && files2.contains_key(
        (t.name, t.attrs[j].0),
    ) by {}
    lemma_load_all(files2, t.name, t.attrs);
    let cs2 = Seq::new(t.attrs.len(), |j: int| decode_column(t.attrs[j].1, files2[(t.name, t.attrs[j].0)]));
    assert forall|c: int| 0 <= c < t.attrs.len() implies #[trigger] cs2[c] == kept[c] by {
        law_column_write_read(t.attrs[c].1, kept[c]);
        assert(normalized_all(t.attrs[c].1, kept[c]) =~= kept[c]);
    }
    assert(cs2 =~= kept);
    lemma_kept_rows(t, cs, names, conds, m);
    assert(select_result(e2, name, names, empty) == Ok::<Seq<EntityView>, Seq<char>>(select_rows(t, kept, names, empty, row_count(kept))));
    // the count, against a select with the same conditions
    assert(select_result(e, name, names, conds) == Ok::<Seq<EntityView>, Seq<char>>(select_rows(t, cs, names, conds, m)));
    lemma_select_rows_len(t, cs, names, conds, m);
    // the files after hold whole cells of the kept rows, which read back as themselves
    lemma_kept_len(cs[0], t, cs, conds, m);
    let m1 = kept[0].len();
    assert forall|c: int| 0 <= c < t.attrs.len() implies (#[trigger] kept[c]).len() == m1 by {
        lemma_kept_len(cs[c], t, cs, conds, m);
    }
    lemma_select_rows_len(t, kept, names, empty, m1);
    lemma_count_all(t, kept, m1);
    assert(holds_rows(files2, t, m1)) by {
        assert forall|j: int| 0 <= j < t.attrs.len() implies {
            &&& width(#[trigger] t.attrs[j].1) > 0
            &&& files2.contains_key((t.name, t.attrs[j].0))
            &&& files2[(t.name, t.attrs[j].0)].len() == m1 * width(t.attrs[j].1)
        } by {
            law_column_write_read(t.attrs[j].1, kept[j]);
        }
    }
    assert forall|c: int| 0 <= c < t.attrs.len() implies stable(
        t.attrs[c].1,
        decode_column(#[trigger] t.attrs[c].1, files2[(name, t.attrs[c].0)]),
    ) by {
        assert(cs2[c] == kept[c]);
    }
    assert forall|c: int| 0 <= c < t.attrs.len() implies #[trigger] files2[(t.name, t.attrs[c].0)] == encode_column(
        t.attrs[c].1,
        decode_column(t.attrs[c].1, files2[(t.name, t.attrs[c].0)]),
    ).0 by {
        assert(cs2[c] == kept[c]);
    }
}

/// Whether each column file of `t` is exactly the encoding of the values that
/// it reads as.
pub open spec fn canonical(files: Map<FileKey, Seq<u8>>, t: TableView) -> bool {
    forall|c: int|
        0 <= c < t.attrs.len() ==> #[trigger] files[(t.name, t.attrs[c].0)] == encode_column(
            t.attrs[c].1,
            decode_column(t.attrs[c].1, files[(t.name, t.attrs[c].0)]),
        ).0
}

pub(crate) proof fn lemma_kept_all(col: Seq<CellValue>, t: TableView, cs: Seq<Seq<CellValue>>, conds: Seq<Condition>, n: nat)
    requires
        col.len() == n,
        forall|r: int| 0 <= r < n ==> !#[trigger] row_matches(t, cs, conds, r),
    ensures
        kept_values(col, t, cs, conds, n) == col,
{
    lemma_kept_all_prefix(col, t, cs, conds, n);
    assert(col.subrange(0, n as int) =~= col);
}

pub(crate) proof fn lemma_kept_all_prefix(col: Seq<CellValue>, t: TableView, cs: Seq<Seq<CellValue>>, conds: Seq<Condition>, n: nat)
    requires
        col.len() >= n,
        forall|r: int| 0 <= r < n ==> !#[trigger] row_matches(t, cs, conds, r),
    ensures
        kept_values(col, t, cs, conds, n) == col.subrange(0, n as int),
    decreases n,
{
    if n > 0 {
        lemma_kept_all_prefix(col, t, cs, conds, (n - 1) as nat);
        assert(!row_matches(t, cs, conds, n - 1));
        assert(col.subrange(0, n - 1).push(col[n - 1]) =~= col.subrange(0, n as int));
    } else {
        assert(col.subrange(0, 0) =~= Seq::<CellValue>::empty());
    }
}

pub(crate) proof fn lemma_select_rows_len(
    t: TableView,
    cols: Seq<Seq<CellValue>>,
    names: Seq<Seq<char>>,
    conds: Seq<Condition>,
    n: nat,
)
    ensures
        select_rows(t, cols, names, conds, n).len() == count_matches(t, cols, conds, n),
    decreases n,
{
    if n > 0 {
        lemma_select_rows_len(t, cols, names, conds, (n - 1) as nat);
    }
}

pub(crate) proof fn lemma_count_all(t: TableView, cols: Seq<Seq<CellValue>>, n: nat)
    ensures
        count_matches(t, cols, Seq::empty(), n) == n,
    decreases n,
{
    if n > 0 {
        lemma_count_all(t, cols, (n - 1) as nat);
        assert(all_hold(row_entity(t, cols, n - 1).data, Seq::<Condition>::empty()));
    }
}

pub(crate) proof fn lemma_kept_subset(
    col: Seq<CellValue>,
    t: TableView,
    cs: Seq<Seq<CellValue>>,
    conds: Seq<Condition>,
    n: nat,
    i: int,
)
    requires
        0 <= i < kept_values(col, t, cs, conds, n).len(),
    ensures
        exists|r: int| 0 <= r < n && kept_values(col, t, cs, conds, n)[i] == col[r],
    decreases n,
{
    if n > 0 {
        let prev = kept_values(col, t, cs, conds, (n - 1) as nat);
        if i < prev.len() {
            lemma_kept_subset(col, t, cs, conds, (n - 1) as nat, i);
            let r = choose|r: int| 0 <= r < n - 1 && prev[i] == col[r];
            assert(kept_values(col, t, cs, conds, n)[i] == col[r]);
        } else {
            assert(kept_values(col, t, cs, conds, n)[i] == col[n - 1]);
        }
    }
}


pub(crate) proof fn lemma_select_all(t: TableView, cols: Seq<Seq<CellValue>>, n: nat)
    requires
        cols.len() == t.attrs.len(),
    ensures
        select_rows(t, cols, attr_names(t), Seq::empty(), n) == Seq::new(
            n,
            |r: int| row_entity(t, cols, r),
        ),
    decreases n,
{
    if n > 0 {
        lemma_select_all(t, cols, (n - 1) as nat);
        let row = row_entity(t, cols, n - 1);
        assert forall|i: int| 0 <= i < row.data.len() implies attr_names(t).contains(#[trigger] row.data[i].0) by {
            assert(attr_names(t)[i] == row.data[i].0);
        }
        lemma_project_all(row.data, attr_names(t));
        assert(all_hold(row.data, Seq::<Condition>::empty()));
        assert(Seq::new((n - 1) as nat, |r: int| row_entity(t, cols, r)).push(row) =~= Seq::new(
            n,
            |r: int| row_entity(t, cols, r),
        ));
    } else {
        assert(Seq::new(n, |r: int| row_entity(t, cols, r)) =~= Seq::<EntityView>::empty());
    }
}

pub(crate) proof fn lemma_last_update_type(t: TableView, updates: Seq<(Seq<char>, CellValue)>, c: int)
    requires
        insertable(t, updates),
    ensures
        last_update_for(t.attrs, updates, c) matches Some(u) ==> type_matches(t.attrs[c].1, u),
    decreases updates.len(),
{
    if updates.len() > 0 {
        let init = updates.drop_last();
        assert(insertable(t, init)) by {
            assert forall|p: int| 0 <= p < init.len() implies {
                &&& has_attr(t.attrs, #[trigger] init[p].0)
                &&& type_matches(t.attrs[find_attr(t.attrs, init[p].0)->0].1, init[p].1)
            } by {
                assert(init[p] == updates[p]);
            }
        }
        lemma_last_update_type(t, init, c);
        let last = updates[updates.len() - 1];
        assert(has_attr(t.attrs, last.0));
    }
}

/// A row with the updates applied that last in its columns, each new value as
/// it reads back.  Columns that share a name share a file, which keeps what the
/// last of them was given; updates go to the first of them, so they last only
/// in a column whose name no other column has.
pub open spec fn apply_updates(row: EntityView, t: TableView, updates: Seq<(Seq<char>, CellValue)>) -> EntityView {
    EntityView {
        of: row.of,
        data: Seq::new(
            row.data.len(),
            |c: int|
                (
                    row.data[c].0,
                    match last_update_for(t.attrs, updates, last_named(t.attrs, t.attrs[c].0)) {
                        Some(u) => normalized(t.attrs[c].1, u),
                        None => row.data[c].1,
                    },
                ),
        ),
    }
}

/// `rows` with the updates applied to each row that meets `conds`.
pub open spec fn rows_updated(
    rows: Seq<EntityView>,
    t: TableView,
    updates: Seq<(Seq<char>, CellValue)>,
    conds: Seq<Condition>,
) -> Seq<EntityView> {
    Seq::new(
        rows.len(),
        |r: int|
            if all_hold(rows[r].data, conds) {
                apply_updates(rows[r], t, updates)
            } else {
                rows[r]
            },
    )
}

/// Updating the rows that meet `conds` and then selecting every column with no
/// condition gives the rows selected before, each one that meets `conds` with
/// the updates applied (the last update of a column wins; each new value as it
/// reads back); the count returned is the number of such rows.  This holds for
/// a table whose columns have positive widths, the same type where they share
/// a name, and files of the same number of whole cells (perhaps followed by a
/// partial one) that read back as themselves once rewritten, and for updates
/// that name columns of it with values of their types.
#[verifier::spinoff_prover]
#[verifier::rlimit(40)]
pub proof fn law_update_then_select(
    e: EngineView,
    name: Seq<char>,
    updates: Seq<(Seq<char>, CellValue)>,
    conds: Seq<Condition>,
    m: nat,
)
    requires
        find_table(e.tables, name) is Some,
        table_named(e.tables, name).attrs.len() > 0,
        names_agree(table_named(e.tables, name)),
        holds_records(e.files, table_named(e.tables, name), m),
        forall|c: int|
            0 <= c < table_named(e.tables, name).attrs.len() ==> stable(
                table_named(e.tables, name).attrs[c].1,
                decode_column(
                    #[trigger] table_named(e.tables, name).attrs[c].1,
                    e.files[(name, table_named(e.tables, name).attrs[c].0)],
                ),
            ),
        insertable(table_named(e.tables, name), updates),
    ensures
        select_result(e, name, attr_names(table_named(e.tables, name)), Seq::empty()) is Ok,
        update_result(e, name, updates, conds).1 is Ok,
        update_result(e, name, updates, conds).0.tables == e.tables,
        select_result(
            update_result(e, name, updates, conds).0,
            name,
            attr_names(table_named(e.tables, name)),
            Seq::empty(),
        ) == Ok::<Seq<EntityView>, Seq<char>>(
            rows_updated(
                select_result(e, name, attr_names(table_named(e.tables, name)), Seq::empty())->Ok_0,
                table_named(e.tables, name),
                updates,
                conds,
            ),
        ),
        holds_rows(update_result(e, name, updates, conds).0.files, table_named(e.tables, name), m),
        updates_settle(table_named(e.tables, name), updates) ==> forall|c: int|
            0 <= c < table_named(e.tables, name).attrs.len() ==> stable(
                table_named(e.tables, name).attrs[c].1,
                decode_column(
                    #[trigger] table_named(e.tables, name).attrs[c].1,
                    update_result(e, name, updates, conds).0.files[(name, table_named(e.tables, name).attrs[c].0)],
                ),
            ),
{
    let t = table_named(e.tables, name);
    let names = attr_names(t);
    let empty = Seq::<Condition>::empty();
    lemma_find_table_spec(e.tables, name);
    assert(t.name == name);
    lemma_load_all(e.files, t.name, t.attrs);
    let cs = Seq::new(t.attrs.len(), |j: int| decode_column(t.attrs[j].1, e.files[(t.name, t.attrs[j].0)]));
    assert forall|j: int| 0 <= j < t.attrs.len() implies (#[trigger] cs[j]).len() == m by {}
    assert(row_count(cs) == m);
    assert forall|i: int| 0 <= i < names.len() implies has_attr(t.attrs, #[trigger] names[i]) by {
        assert(names[i] == t.attrs[i].0);
    }
    lemma_first_unknown_none(t.attrs, names);
    assert(select_result(e, name, names, empty) == Ok::<Seq<EntityView>, Seq<char>>(select_rows(t, cs, names, empty, m)));
    lemma_select_all(t, cs, m);
    // every update names a known column
    assert(first_unknown_update(t.attrs, updates) is None) by {
        lemma_no_unknown_update(t, updates);
    }
    let newc = Seq::new(
        cs.len(),
        |c: int| updated_values(cs[c], t, cs, conds, m, last_update_for(t.attrs, updates, c)),
    );
    assert forall|c: int, i: int| 0 <= c < t.attrs.len() && 0 <= i < newc[c].len() implies type_matches(
        t.attrs[c].1,
        #[trigger] newc[c][i],
    ) by {
        law_decoded_types(t.attrs[c].1, e.files[(t.name, t.attrs[c].0)]);
        lemma_last_update_type(t, updates, c);
    }
    lemma_write_columns_last(e.files, t.name, t.attrs, newc);
    let files2 = write_columns(e.files, t.name, t.attrs, newc).0;
    let e2 = update_result(e, name, updates, conds).0;
    assert(e2.files == files2);
    assert forall|j: int| 0 <= j < t.attrs.len() implies width(#[trigger] t.attrs[j].1) > 0 && files2.contains_key(
        (t.name, t.attrs[j].0),
    ) by {}
    lemma_load_all(files2, t.name, t.attrs);
    let cs2 = Seq::new(t.attrs.len(), |j: int| decode_column(t.attrs[j].1, files2[(t.name, t.attrs[j].0)]));
    // each column reads what the last column of its name was given
    assert forall|c: int| 0 <= c < t.attrs.len() implies {
        &&& 0 <= last_named(t.attrs, t.attrs[c].0) < t.attrs.len()
        &&& t.attrs[last_named(t.attrs, t.attrs[c].0)].1 == t.attrs[c].1
        &&& cs[last_named(t.attrs, t.attrs[c].0)] == cs[c]
        &&& #[trigger] cs2[c] == normalized_all(t.attrs[c].1, newc[last_named(t.attrs, t.attrs[c].0)])
        &&& files2[(t.name, t.attrs[c].0)].len() == m * width(t.attrs[c].1)
    } by {
        lemma_last_named(t.attrs, c);
        let l = last_named(t.attrs, t.attrs[c].0);
        assert(t.attrs[l].1 == t.attrs[c].1);
        assert(files2[(t.name, t.attrs[c].0)] == encode_column(t.attrs[l].1, newc[l]).0);
        law_column_write_read(t.attrs[l].1, newc[l]);
        assert(cs[l] == cs[c]);
    }
    assert(row_count(cs2) == m);
    assert(select_result(e2, name, names, empty) == Ok::<Seq<EntityView>, Seq<char>>(select_rows(t, cs2, names, empty, m)));
    lemma_select_all(t, cs2, m);
    let before = Seq::new(m, |r: int| row_entity(t, cs, r));
    let after = Seq::new(m, |r: int| row_entity(t, cs2, r));
    assert forall|r: int| 0 <= r < m implies #[trigger] after[r] == rows_updated(before, t, updates, conds)[r] by {
        let row = before[r];
        assert(row == row_entity(t, cs, r));
        assert(row_matches(t, cs, conds, r) == all_hold(row.data, conds));
        assert forall|c: int| 0 <= c < t.attrs.len() implies #[trigger] cs2[c][r] == (if all_hold(row.data, conds) {
            match last_update_for(t.attrs, updates, last_named(t.attrs, t.attrs[c].0)) {
                Some(u) => normalized(t.attrs[c].1, u),
                None => row.data[c].1,
            }
        } else {
            row.data[c].1
        }) by {
            let l = last_named(t.attrs, t.attrs[c].0);
            assert(cs2[c][r] == normalized(t.attrs[c].1, newc[l][r]));
            assert(stable(t.attrs[c].1, cs[c]));
            assert(normalized(t.attrs[c].1, cs[c][r]) == cs[c][r]);
        }
        if all_hold(row.data, conds) {
            assert(after[r].data =~= apply_updates(row, t, updates).data);
        } else {
            assert(after[r].data =~= row.data);
        }
    }
    assert(after =~= rows_updated(before, t, updates, conds));
    // the files after hold whole cells, which settle where the updates do
    assert(holds_rows(files2, t, m)) by {
        assert forall|j: int| 0 <= j < t.attrs.len() implies {
            &&& width(#[trigger] t.attrs[j].1) > 0
            &&& files2.contains_key((t.name, t.attrs[j].0))
            &&& files2[(t.name, t.attrs[j].0)].len() == m * width(t.attrs[j].1)
        } by {
            assert(cs2[j] == normalized_all(t.attrs[j].1, newc[last_named(t.attrs, t.attrs[j].0)]));
        }
    }
    if updates_settle(t, updates) {
        assert forall|c: int| 0 <= c < t.attrs.len() implies stable(
            t.attrs[c].1,
            decode_column(#[trigger] t.attrs[c].1, files2[(name, t.attrs[c].0)]),
        ) by {
            let ty = t.attrs[c].1;
            let l = last_named(t.attrs, t.attrs[c].0);
            assert(cs2[c] == normalized_all(ty, newc[l]));
            assert(cs2[c] == decode_column(ty, files2[(name, t.attrs[c].0)]));
            assert forall|r: int| 0 <= r < cs2[c].len() implies normalized(ty, #[trigger] cs2[c][r]) == cs2[c][r] by {
                assert(cs2[c][r] == normalized(ty, newc[l][r]));
                assert(stable(ty, cs[c]));
                if r < m && row_matches(t, cs, conds, r) && last_update_for(t.attrs, updates, l) is Some {
                    lemma_last_update_from(t.attrs, updates, l);
                    let p = choose|p: int| 0 <= p < updates.len() && updates[p].1 == last_update_for(t.attrs, updates, l)->0
                        && find_attr(t.attrs, updates[p].0) == Some(l);
                    assert(settles(t.attrs[find_attr(t.attrs, updates[p].0)->0].1, updates[p].1));
                } else {
                    assert(newc[l][r] == cs[l][r]);
                }
            }
        }
    }
}

pub(crate) proof fn lemma_last_update_from(attrs: Seq<(Seq<char>, Type)>, updates: Seq<(Seq<char>, CellValue)>, c: int)
    ensures
        last_update_for(attrs, updates, c) matches Some(u) ==> exists|p: int|
            0 <= p < updates.len() && updates[p].1 == u && find_attr(attrs, updates[p].0) == Some(c),
    decreases updates.len(),
{
    if updates.len() > 0 {
        let init = updates.drop_last();
        lemma_last_update_from(attrs, init, c);
        if find_attr(attrs, updates.last().0) != Some(c) {
            if last_update_for(attrs, init, c) is Some {
                let p = choose|p: int| 0 <= p < init.len() && init[p].1 == last_update_for(attrs, init, c)->0
                    && find_attr(attrs, init[p].0) == Some(c);
                assert(updates[p] == init[p]);
            }
        } else {
            assert(updates[updates.len() - 1] == updates.last());
        }
    }
}

/// Whether value `v`, as it reads back from a column of type `ty`, reads back
/// as itself once written again.
pub open spec fn settles(ty: Type, v: CellValue) -> bool {
    normalized(ty, normalized(ty, v)) == normalized(ty, v)
}

/// Whether the value of each update settles in the column it names.
pub open spec fn updates_settle(t: TableView, updates: Seq<(Seq<char>, CellValue)>) -> bool {
    forall|p: int|
        0 <= p < updates.len() ==> settles(
            t.attrs[find_attr(t.attrs, #[trigger] updates[p].0)->0].1,
            updates[p].1,
        )
}

/// Repeating an update with the same values and conditions succeeds and
/// leaves the rows as the first update left them.  This holds under the
/// conditions of an update followed by a select, for updates whose values,
/// as they read back, read back as themselves once written again.
pub proof fn law_update_twice(
    e: EngineView,
    name: Seq<char>,
    updates: Seq<(Seq<char>, CellValue)>,
    conds: Seq<Condition>,
    m: nat,
)
    requires
        find_table(e.tables, name) is Some,
        table_named(e.tables, name).attrs.len() > 0,
        names_agree(table_named(e.tables, name)),
        holds_records(e.files, table_named(e.tables, name), m),
        forall|c: int|
            0 <= c < table_named(e.tables, name).attrs.len() ==> stable(
                table_named(e.tables, name).attrs[c].1,
                decode_column(
                    #[trigger] table_named(e.tables, name).attrs[c].1,
                    e.files[(name, table_named(e.tables, name).attrs[c].0)],
                ),
            ),
        insertable(table_named(e.tables, name), updates),
        updates_settle(table_named(e.tables, name), updates),
    ensures
        update_result(update_result(e, name, updates, conds).0, name, updates, conds).1 is Ok,
        update_result(update_result(e, name, updates, conds).0, name, updates, conds).0.tables == e.tables,
        select_result(
            update_result(update_result(e, name, updates, conds).0, name, updates, conds).0,
            name,
            attr_names(table_named(e.tables, name)),
            Seq::empty(),
        ) == select_result(
            update_result(e, name, updates, conds).0,
            name,
            attr_names(table_named(e.tables, name)),
            Seq::empty(),
        ),
{
    let t = table_named(e.tables, name);
    let all = attr_names(t);
    let empty = Seq::<Condition>::empty();
    law_update_then_select(e, name, updates, conds, m);
    let e1 = update_result(e, name, updates, conds).0;
    assert(table_named(e1.tables, name) == t);
    law_rows_are_records(e1.files, t, m);
    law_update_then_select(e1, name, updates, conds, m);
    let rows0 = select_result(e, name, all, empty)->Ok_0;
    let rows1 = rows_updated(rows0, t, updates, conds);
    let rows2 = rows_updated(rows1, t, updates, conds);
    assert forall|r: int| 0 <= r < rows1.len() implies #[trigger] rows2[r] == rows1[r] by {
        if all_hold(rows1[r].data, conds) && all_hold(rows0[r].data, conds) {
            let x = apply_updates(rows0[r], t, updates);
            assert(apply_updates(x, t, updates).data =~= x.data);
        }
    }
    assert(rows2 =~= rows1);
}

pub(crate) proof fn lemma_no_unknown_update(t: TableView, updates: Seq<(Seq<char>, CellValue)>)
    requires
        insertable(t, updates),
    ensures
        first_unknown_update(t.attrs, updates) is None,
    decreases updates.len(),
{
    if updates.len() > 0 {
        let rest = updates.drop_first();
        assert(insertable(t, rest)) by {
            assert forall|p: int| 0 <= p < rest.len() implies {
                &&& has_attr(t.attrs, #[trigger] rest[p].0)
                &&& type_matches(t.attrs[find_attr(t.attrs, rest[p].0)->0].1, rest[p].1)
            } by {
                assert(rest[p] == updates[p + 1]);
            }
        }
        assert(has_attr(t.attrs, updates[0].0));
        lemma_no_unknown_update(t, rest);
    }
}


/// Creating a table twice: the second attempt is refused and changes nothing.
pub proof fn law_create_twice(e: EngineView, t: TableView)
    ensures
        create_table_result(create_table_result(e, t).0, t) == (
            create_table_result(e, t).0,
            Err::<(), Seq<char>>(msg_table_exists(t.name)),
        ),
{
    let e1 = create_table_result(e, t).0;
    if !has_table(e.tables, t.name) {
        assert(e1.tables[e.tables.len() as int].name == t.name);
    }
    assert(has_table(e1.tables, t.name));
}

pub(crate) proof fn lemma_find_table_push(tables: Seq<TableView>, t: TableView, i: int)
    requires
        0 <= i <= tables.len(),
        forall|k: int| i <= k < tables.len() ==> tables[k].name != t.name,
    ensures
        find_table_from(tables.push(t), t.name, i) == Some(tables.len() as int),
    decreases tables.len() - i,
{
    if i < tables.len() {
        assert(tables.push(t)[i] == tables[i]);
        lemma_find_table_push(tables, t, i + 1);
    }
}

pub(crate) proof fn lemma_create_files(
    files: Map<FileKey, Seq<u8>>,
    tname: Seq<char>,
    attrs: Seq<(Seq<char>, Type)>,
)
    ensures
        forall|j: int|
            0 <= j < attrs.len() ==> create_files(files, tname, attrs).contains_key(
                (tname, #[trigger] attrs[j].0),
            ) && create_files(files, tname, attrs)[(tname, attrs[j].0)] == Seq::<u8>::empty(),
    decreases attrs.len(),
{
    if attrs.len() > 0 {
        let init = attrs.drop_last();
        lemma_create_files(files, tname, init);
        assert forall|j: int| 0 <= j < attrs.len() implies create_files(files, tname, attrs).contains_key(
            (tname, #[trigger] attrs[j].0),
        ) && create_files(files, tname, attrs)[(tname, attrs[j].0)] == Seq::<u8>::empty() by {
            if j < attrs.len() - 1 {
                assert(init[j] == attrs[j]);
            }
        }
    }
}

/// A newly created table, all of whose columns have a positive width, holds no
/// rows: selecting every column of it gives no row.
pub proof fn law_new_table_is_empty(e: EngineView, t: TableView)
    requires
        create_table_result(e, t).1 is Ok,
        forall|j: int| 0 <= j < t.attrs.len() ==> width(#[trigger] t.attrs[j].1) > 0,
    ensures
        table_named(create_table_result(e, t).0.tables, t.name) == t,
        holds_rows(create_table_result(e, t).0.files, t, 0),
        select_result(create_table_result(e, t).0, t.name, attr_names(t), Seq::empty()) == Ok::<
            Seq<EntityView>,
            Seq<char>,
        >(Seq::empty()),
{
    let e1 = create_table_result(e, t).0;
    assert(!has_table(e.tables, t.name));
    lemma_find_table_push(e.tables, t, 0);
    assert(e1.tables[e.tables.len() as int] == t);
    lemma_create_files(e.files, t.name, t.attrs);
    assert(holds_rows(e1.files, t, 0)) by {
        assert forall|j: int| 0 <= j < t.attrs.len() implies {
            &&& width(#[trigger] t.attrs[j].1) > 0
            &&& e1.files.contains_key((t.name, t.attrs[j].0))
            &&& e1.files[(t.name, t.attrs[j].0)].len() == 0 * width(t.attrs[j].1)
        } by {
            assert(0 * width(t.attrs[j].1) == 0);
        }
    }
    lemma_load_all(e1.files, t.name, t.attrs);
    let cs = Seq::new(t.attrs.len(), |j: int| decode_column(t.attrs[j].1, e1.files[(t.name, t.attrs[j].0)]));
    let names = attr_names(t);
    assert forall|i: int| 0 <= i < names.len() implies has_attr(t.attrs, #[trigger] names[i]) by {
        assert(names[i] == t.attrs[i].0);
    }
    lemma_first_unknown_none(t.attrs, names);
    if t.attrs.len() > 0 {
        assert(cs[0] =~= Seq::<CellValue>::empty());
    }
    assert(row_count(cs) == 0);
}

pub(crate) proof fn lemma_tables_without(tables: Seq<TableView>, name: Seq<char>)
    ensures
        !has_table(tables_without(tables, name), name),
    decreases tables.len(),
{
    if tables.len() > 0 {
        lemma_tables_without(tables.drop_last(), name);
        let rest = tables_without(tables.drop_last(), name);
        if tables.last().name != name {
            assert forall|i: int| 0 <= i < rest.len() + 1 implies #[trigger] rest.push(tables.last())[i].name != name by {
                if i < rest.len() {
                    assert(rest.push(tables.last())[i] == rest[i]);
                }
            }
        }
    }
}

/// Once a table is dropped, no table of that name and no file of it remain:
/// selecting from it and inserting into it are refused as for a table that
/// does not exist.
pub proof fn law_drop_then_gone(e: EngineView, name: Seq<char>, ent: EntityView, names: Seq<Seq<char>>, conds: Seq<Condition>)
    requires
        drop_table_result(e, name).1 is Ok,
        ent.of == name,
    ensures
        !has_table(drop_table_result(e, name).0.tables, name),
        forall|k: FileKey| k.0 == name ==> !(#[trigger] drop_table_result(e, name).0.files.contains_key(k)),
        select_result(drop_table_result(e, name).0, name, names, conds) == Err::<Seq<EntityView>, Seq<char>>(
            msg_no_table(name),
        ),
        insert_result(drop_table_result(e, name).0, ent) == (
            drop_table_result(e, name).0,
            Err::<(), Seq<char>>(msg_no_table(name)),
        ),
{
    let e1 = drop_table_result(e, name).0;
    lemma_tables_without(e.tables, name);
    lemma_find_table_spec(e1.tables, name);
}


pub(crate) proof fn lemma_encode_column_ok_types(ty: Type, vals: Seq<CellValue>)
    requires
        encode_column(ty, vals).1,
    ensures
        forall|i: int| 0 <= i < vals.len() ==> type_matches(ty, #[trigger] vals[i]),
    decreases vals.len(),
{
    if vals.len() > 0 {
        lemma_encode_column_ok_types(ty, vals.drop_first());
        assert(encode_cell(ty, vals[0]) is Some);
        assert forall|i: int| 0 <= i < vals.len() implies type_matches(ty, #[trigger] vals[i]) by {
            if i > 0 {
                assert(vals[i] == vals.drop_first()[i - 1]);
            }
        }
    }
}

/// Rewriting a column file with values, where it succeeds, replaces its old
/// contents: reading it back gives each value as it reads back, and values
/// that read back as themselves are given back unchanged.
pub proof fn law_write_then_read_column(
    files: Map<FileKey, Seq<u8>>,
    k: FileKey,
    ty: Type,
    vals: Seq<CellValue>,
)
    requires
        width(ty) > 0,
        write_one(files, k, ty, vals).1 is Ok,
    ensures
        write_one(files, k, ty, vals).0.contains_key(k),
        decode_column(ty, write_one(files, k, ty, vals).0[k]) == normalized_all(ty, vals),
        stable(ty, vals) ==> decode_column(ty, write_one(files, k, ty, vals).0[k]) == vals,
{
    lemma_encode_column_ok_types(ty, vals);
    law_column_write_read(ty, vals);
    if stable(ty, vals) {
        assert(normalized_all(ty, vals) =~= vals);
    }
}


pub(crate) proof fn lemma_select_rows_same_conds(
    t: TableView,
    cols: Seq<Seq<CellValue>>,
    names: Seq<Seq<char>>,
    c1: Seq<Condition>,
    c2: Seq<Condition>,
    n: nat,
)
    requires
        forall|d: Seq<(Seq<char>, CellValue)>| #[trigger] all_hold(d, c1) == all_hold(d, c2),
    ensures
        select_rows(t, cols, names, c1, n) == select_rows(t, cols, names, c2, n),
    decreases n,
{
    if n > 0 {
        lemma_select_rows_same_conds(t, cols, names, c1, c2, (n - 1) as nat);
        assert(all_hold(row_entity(t, cols, n - 1).data, c1) == all_hold(row_entity(t, cols, n - 1).data, c2));
    }
}

/// Two condition lists that every row meets alike select the same rows, and
/// are refused alike.
pub proof fn law_select_conditions_equivalent(
    e: EngineView,
    name: Seq<char>,
    names: Seq<Seq<char>>,
    c1: Seq<Condition>,
    c2: Seq<Condition>,
)
    requires
        forall|d: Seq<(Seq<char>, CellValue)>| #[trigger] all_hold(d, c1) == all_hold(d, c2),
    ensures
        select_result(e, name, names, c1) == select_result(e, name, names, c2),
{
    if let Some(i) = find_table(e.tables, name) {
        let t = e.tables[i];
        if let Loaded::Columns(cs) = load_columns(e.files, t.name, t.attrs) {
            lemma_select_rows_same_conds(t, cs, names, c1, c2, row_count(cs));
        }
    }
}

/// Selecting with the two conditions `c1` and `c2` gives what selecting with
/// the one condition `c1 AND c2` gives.
pub proof fn law_select_and(
    e: EngineView,
    name: Seq<char>,
    names: Seq<Seq<char>>,
    c1: Condition,
    c2: Condition,
)
    ensures
        select_result(e, name, names, seq![c1, c2]) == select_result(
            e,
            name,
            names,
            seq![Condition::And(Box::new(c1), Box::new(c2))],
        ),
{
    let both = seq![c1, c2];
    let one = seq![Condition::And(Box::new(c1), Box::new(c2))];
    assert forall|d: Seq<(Seq<char>, CellValue)>| #[trigger] all_hold(d, both) == all_hold(d, one) by {
        assert(one[0] == Condition::And(Box::new(c1), Box::new(c2)));
        assert(cond_holds(d, one[0]) == (cond_holds(d, c1) && cond_holds(d, c2)));
        if all_hold(d, both) {
            assert(cond_holds(d, both[0]) && cond_holds(d, both[1]));
        }
        if all_hold(d, one) {
            assert(cond_holds(d, one[0]));
            assert forall|k: int| 0 <= k < both.len() implies #[trigger] cond_holds(d, both[k]) by {
                if k == 0 {
                    assert(both[k] == c1);
                } else {
                    assert(both[k] == c2);
                }
            }
        }
    }
    law_select_conditions_equivalent(e, name, names, both, one);
}

/// Whether `idx` picks, in increasing positions of `b`, the rows of `a`.
pub open spec fn embeds(idx: Seq<int>, a: Seq<EntityView>, b: Seq<EntityView>) -> bool {
    &&& idx.len() == a.len()
    &&& forall|k: int| 0 <= k < idx.len() ==> 0 <= #[trigger] idx[k] < b.len() && a[k] == b[idx[k]]
    &&& forall|k: int, l: int| 0 <= k < l < idx.len() ==> idx[k] < idx[l]
}

/// Whether the rows of `a` are rows of `b`, in the same order.
pub open spec fn is_subsequence(a: Seq<EntityView>, b: Seq<EntityView>) -> bool {
    exists|idx: Seq<int>| embeds(idx, a, b)
}

pub(crate) proof fn lemma_select_rows_more(
    t: TableView,
    cols: Seq<Seq<CellValue>>,
    names: Seq<Seq<char>>,
    cs: Seq<Condition>,
    ds: Seq<Condition>,
    n: nat,
)
    ensures
        is_subsequence(select_rows(t, cols, names, cs + ds, n), select_rows(t, cols, names, cs, n)),
    decreases n,
{
    let a = select_rows(t, cols, names, cs + ds, n);
    let b = select_rows(t, cols, names, cs, n);
    if n == 0 {
        assert(embeds(Seq::<int>::empty(), a, b));
    } else {
        let n1 = (n - 1) as nat;
        lemma_select_rows_more(t, cols, names, cs, ds, n1);
        let a1 = select_rows(t, cols, names, cs + ds, n1);
        let b1 = select_rows(t, cols, names, cs, n1);
        let idx = choose|idx: Seq<int>| embeds(idx, a1, b1);
        let d = row_entity(t, cols, n - 1).data;
        if all_hold(d, cs + ds) {
            assert forall|k: int| 0 <= k < cs.len() implies #[trigger] cond_holds(d, cs[k]) by {
                assert((cs + ds)[k] == cs[k]);
            }
            let idx2 = idx.push(b1.len() as int);
            assert(embeds(idx2, a, b));
        } else if all_hold(d, cs) {
            assert(embeds(idx, a, b));
        } else {
            assert(embeds(idx, a, b));
        }
    }
}

/// Adding conditions to a select keeps some of the rows that it gave, in
/// order, and is refused exactly where the select without them is, with the
/// same error.
pub proof fn law_select_more_conditions(
    e: EngineView,
    name: Seq<char>,
    names: Seq<Seq<char>>,
    cs: Seq<Condition>,
    ds: Seq<Condition>,
)
    ensures
        select_result(e, name, names, cs + ds) is Ok <==> select_result(e, name, names, cs) is Ok,
        select_result(e, name, names, cs) is Err ==> select_result(e, name, names, cs + ds)
            == select_result(e, name, names, cs),
        select_result(e, name, names, cs) is Ok ==> is_subsequence(
            select_result(e, name, names, cs + ds)->Ok_0,
            select_result(e, name, names, cs)->Ok_0,
        ),
{
    if let Some(i) = find_table(e.tables, name) {
        let t = e.tables[i];
        if let Loaded::Columns(cols) = load_columns(e.files, t.name, t.attrs) {
            lemma_select_rows_more(t, cols, names, cs, ds, row_count(cols));
        }
    }
}

/// Selecting known columns of a table whose column files hold `m` whole
/// cells each (perhaps followed by a partial one), with no condition, gives
/// one row of that table per record.
pub proof fn law_select_all_rows(e: EngineView, name: Seq<char>, names: Seq<Seq<char>>, m: nat)
    requires
        find_table(e.tables, name) is Some,
        table_named(e.tables, name).attrs.len() > 0,
        holds_records(e.files, table_named(e.tables, name), m),
        forall|i: int| 0 <= i < names.len() ==> has_attr(table_named(e.tables, name).attrs, #[trigger] names[i]),
    ensures
        select_result(e, name, names, Seq::empty()) is Ok,
        select_result(e, name, names, Seq::empty())->Ok_0.len() == m,
        forall|r: int|
            0 <= r < m ==> (#[trigger] select_result(e, name, names, Seq::empty())->Ok_0[r]).of == name,
{
    let t = table_named(e.tables, name);
    let empty = Seq::<Condition>::empty();
    lemma_find_table_spec(e.tables, name);
    lemma_load_all(e.files, t.name, t.attrs);
    let cs = Seq::new(t.attrs.len(), |j: int| decode_column(t.attrs[j].1, e.files[(t.name, t.attrs[j].0)]));
    assert(row_count(cs) == m);
    lemma_first_unknown_none(t.attrs, names);
    assert(select_result(e, name, names, empty) == Ok::<Seq<EntityView>, Seq<char>>(select_rows(t, cs, names, empty, m)));
    lemma_select_rows_len(t, cs, names, empty, m);
    lemma_count_all(t, cs, m);
    lemma_select_rows_of(t, cs, names, empty, m);
}

pub(crate) proof fn lemma_select_rows_of(
    t: TableView,
    cols: Seq<Seq<CellValue>>,
    names: Seq<Seq<char>>,
    conds: Seq<Condition>,
    n: nat,
)
    ensures
        forall|r: int|
            0 <= r < select_rows(t, cols, names, conds, n).len() ==> (#[trigger] select_rows(
                t,
                cols,
                names,
                conds,
                n,
            )[r]).of == t.name,
    decreases n,
{
    if n > 0 {
        lemma_select_rows_of(t, cols, names, conds, (n - 1) as nat);
        let prev = select_rows(t, cols, names, conds, (n - 1) as nat);
        let cur = select_rows(t, cols, names, conds, n);
        assert forall|r: int| 0 <= r < cur.len() implies (#[trigger] cur[r]).of == t.name by {
            if r < prev.len() {
                assert(cur[r] == prev[r]);
            }
        }
    }
}


/// The values that the column files of `t` hold, column by column.
pub(crate) open spec fn columns_of(files: Map<FileKey, Seq<u8>>, t: TableView) -> Seq<Seq<CellValue>> {
    Seq::new(t.attrs.len(), |j: int| decode_column(t.attrs[j].1, files[(t.name, t.attrs[j].0)]))
}

pub(crate) proof fn lemma_select_unfold(
    e: EngineView,
    name: Seq<char>,
    names: Seq<Seq<char>>,
    conds: Seq<Condition>,
    m: nat,
)
    requires
        find_table(e.tables, name) is Some,
        table_named(e.tables, name).attrs.len() > 0,
        holds_records(e.files, table_named(e.tables, name), m),
        forall|i: int| 0 <= i < names.len() ==> has_attr(table_named(e.tables, name).attrs, #[trigger] names[i]),
    ensures
        table_named(e.tables, name).name == name,
        row_count(columns_of(e.files, table_named(e.tables, name))) == m,
        forall|j: int|
            0 <= j < table_named(e.tables, name).attrs.len() ==> (#[trigger] columns_of(
                e.files,
                table_named(e.tables, name),
            )[j]).len() == m,
        select_result(e, name, names, conds) == Ok::<Seq<EntityView>, Seq<char>>(
            select_rows(
                table_named(e.tables, name),
                columns_of(e.files, table_named(e.tables, name)),
                names,
                conds,
                m,
            ),
        ),
{
    let t = table_named(e.tables, name);
    lemma_find_table_spec(e.tables, name);
    lemma_load_all(e.files, t.name, t.attrs);
    let cs = columns_of(e.files, t);
    assert forall|j: int| 0 <= j < t.attrs.len() implies (#[trigger] cs[j]).len() == m by {}
    lemma_first_unknown_none(t.attrs, names);
}

pub(crate) proof fn lemma_rows_not_matching_fail(rows: Seq<EntityView>, conds: Seq<Condition>)
    ensures
        forall|k: int|
            0 <= k < rows_not_matching(rows, conds).len() ==> !all_hold(
                (#[trigger] rows_not_matching(rows, conds)[k]).data,
                conds,
            ),
    decreases rows.len(),
{
    if rows.len() > 0 {
        lemma_rows_not_matching_fail(rows.drop_last(), conds);
        let prev = rows_not_matching(rows.drop_last(), conds);
        let cur = rows_not_matching(rows, conds);
        assert forall|k: int| 0 <= k < cur.len() implies !all_hold((#[trigger] cur[k]).data, conds) by {
            if k < prev.len() {
                assert(cur[k] == prev[k]);
            }
        }
    }
}

pub(crate) proof fn lemma_rows_not_matching_keep(rows: Seq<EntityView>, conds: Seq<Condition>)
    requires
        forall|k: int| 0 <= k < rows.len() ==> !all_hold((#[trigger] rows[k]).data, conds),
    ensures
        rows_not_matching(rows, conds) == rows,
    decreases rows.len(),
{
    if rows.len() > 0 {
        let init = rows.drop_last();
        assert forall|k: int| 0 <= k < init.len() implies !all_hold((#[trigger] init[k]).data, conds) by {
            assert(init[k] == rows[k]);
        }
        lemma_rows_not_matching_keep(init, conds);
        assert(!all_hold(rows[rows.len() - 1].data, conds));
        assert(init.push(rows.last()) =~= rows);
    }
}

/// Deleting the rows that meet `conds` removes as many rows as a select with
/// the same conditions gives just before, and a select with those conditions
/// afterwards gives no row.  This holds for a table whose columns have
/// positive widths, the same type where they share a name, and files of the
/// same number of whole cells (perhaps followed by a partial one), each of
/// which reads back as itself once rewritten, and for any columns of it
/// selected.
pub proof fn law_delete_count(
    e: EngineView,
    name: Seq<char>,
    names: Seq<Seq<char>>,
    conds: Seq<Condition>,
    m: nat,
)
    requires
        find_table(e.tables, name) is Some,
        table_named(e.tables, name).attrs.len() > 0,
        names_agree(table_named(e.tables, name)),
        holds_records(e.files, table_named(e.tables, name), m),
        forall|c: int|
            0 <= c < table_named(e.tables, name).attrs.len() ==> stable(
                table_named(e.tables, name).attrs[c].1,
                decode_column(
                    #[trigger] table_named(e.tables, name).attrs[c].1,
                    e.files[(name, table_named(e.tables, name).attrs[c].0)],
                ),
            ),
        forall|i: int| 0 <= i < names.len() ==> has_attr(table_named(e.tables, name).attrs, #[trigger] names[i]),
    ensures
        select_result(e, name, names, conds) is Ok,
        delete_result(e, name, conds).1 == Ok::<usize, Seq<char>>(
            select_result(e, name, names, conds)->Ok_0.len() as usize,
        ),
        select_result(delete_result(e, name, conds).0, name, names, conds) == Ok::<
            Seq<EntityView>,
            Seq<char>,
        >(Seq::empty()),
{
    let t = table_named(e.tables, name);
    let all = attr_names(t);
    let empty = Seq::<Condition>::empty();
    law_delete_then_select(e, name, conds, m);
    assert forall|i: int| 0 <= i < all.len() implies has_attr(t.attrs, #[trigger] all[i]) by {
        assert(all[i] == t.attrs[i].0);
    }
    lemma_select_unfold(e, name, names, conds, m);
    lemma_select_unfold(e, name, all, conds, m);
    let cs = columns_of(e.files, t);
    lemma_select_rows_len(t, cs, names, conds, m);
    lemma_select_rows_len(t, cs, all, conds, m);
    // afterwards no row meets the conditions
    let e1 = delete_result(e, name, conds).0;
    let rows0 = select_result(e, name, all, empty)->Ok_0;
    let m1 = rows_not_matching(rows0, conds).len();
    assert(table_named(e1.tables, name) == t);
    law_rows_are_records(e1.files, t, m1);
    lemma_select_unfold(e1, name, names, conds, m1);
    lemma_select_unfold(e1, name, all, empty, m1);
    let cs1 = columns_of(e1.files, t);
    lemma_select_all(t, cs1, m1);
    lemma_rows_not_matching_fail(rows0, conds);
    assert forall|r: int| 0 <= r < m1 implies !#[trigger] row_matches(t, cs1, conds, r) by {
        assert(Seq::new(m1, |r: int| row_entity(t, cs1, r))[r] == row_entity(t, cs1, r));
    }
    lemma_count_matches(t, cs1, conds, m1);
    lemma_select_rows_len(t, cs1, names, conds, m1);
    assert(select_rows(t, cs1, names, conds, m1) =~= Seq::<EntityView>::empty());
}

/// Repeating a delete with the same conditions removes nothing: it returns 0
/// and changes nothing, so the table's rows stay as the first delete left
/// them.  This holds for a table whose columns have positive widths, the same
/// type where they share a name, and files of the same number of whole cells
/// (perhaps followed by a partial one), each of which reads back as itself
/// once rewritten.
pub proof fn law_delete_twice(e: EngineView, name: Seq<char>, conds: Seq<Condition>, m: nat)
    requires
        find_table(e.tables, name) is Some,
        table_named(e.tables, name).attrs.len() > 0,
        names_agree(table_named(e.tables, name)),
        holds_records(e.files, table_named(e.tables, name), m),
        forall|c: int|
            0 <= c < table_named(e.tables, name).attrs.len() ==> stable(
                table_named(e.tables, name).attrs[c].1,
                decode_column(
                    #[trigger] table_named(e.tables, name).attrs[c].1,
                    e.files[(name, table_named(e.tables, name).attrs[c].0)],
                ),
            ),
    ensures
        delete_result(delete_result(e, name, conds).0, name, conds) == (
            delete_result(e, name, conds).0,
            Ok::<usize, Seq<char>>(0),
        ),
        select_result(
            delete_result(delete_result(e, name, conds).0, name, conds).0,
            name,
            attr_names(table_named(e.tables, name)),
            Seq::empty(),
        ) == select_result(
            delete_result(e, name, conds).0,
            name,
            attr_names(table_named(e.tables, name)),
            Seq::empty(),
        ),
{
    let t = table_named(e.tables, name);
    let all = attr_names(t);
    let empty = Seq::<Condition>::empty();
    law_delete_then_select(e, name, conds, m);
    assert forall|i: int| 0 <= i < all.len() implies has_attr(t.attrs, #[trigger] all[i]) by {
        assert(all[i] == t.attrs[i].0);
    }
    law_delete_count(e, name, all, conds, m);
    let e1 = delete_result(e, name, conds).0;
    let rows0 = select_result(e, name, all, empty)->Ok_0;
    let m1 = rows_not_matching(rows0, conds).len();
    assert(table_named(e1.tables, name) == t);
    law_rows_are_records(e1.files, t, m1);
    law_delete_then_select(e1, name, conds, m1);
    // no row of the table meets the conditions any more
    lemma_select_unfold(e1, name, all, conds, m1);
    let cs1 = columns_of(e1.files, t);
    lemma_select_rows_len(t, cs1, all, conds, m1);
    lemma_count_matches(t, cs1, conds, m1);
    assert forall|r: int| 0 <= r < m1 implies !#[trigger] row_matches(t, cs1, conds, r) by {
        if row_matches(t, cs1, conds, r) {
            assert(any_match(t, cs1, conds, m1));
        }
    }
    // so the second delete rewrites each file with what it reads as
    lemma_load_all(e1.files, t.name, t.attrs);
    let kept = Seq::new(cs1.len(), |c: int| kept_values(cs1[c], t, cs1, conds, m1));
    assert forall|c: int| 0 <= c < cs1.len() implies #[trigger] kept[c] == cs1[c] by {
        lemma_kept_all(cs1[c], t, cs1, conds, m1);
    }
    assert(kept =~= cs1);
    assert forall|c: int, i: int| 0 <= c < t.attrs.len() && 0 <= i < cs1[c].len() implies type_matches(
        t.attrs[c].1,
        #[trigger] cs1[c][i],
    ) by {
        law_decoded_types(t.attrs[c].1, e1.files[(t.name, t.attrs[c].0)]);
    }
    assert forall|i: int, j: int|
        #![trigger t.attrs[i], t.attrs[j]]
        0 <= i < t.attrs.len() && 0 <= j < t.attrs.len() && t.attrs[i].0 == t.attrs[j].0 implies t.attrs[i].1
            == t.attrs[j].1 && cs1[i] == cs1[j] by {}
    lemma_write_columns(e1.files, t.name, t.attrs, cs1);
    let files2 = write_columns(e1.files, t.name, t.attrs, cs1).0;
    assert(files2 =~= e1.files) by {
        assert forall|k: FileKey| #[trigger] files2.contains_key(k) implies files2[k] == e1.files[k] by {
            if exists|c: int| 0 <= c < t.attrs.len() && k == (t.name, t.attrs[c].0) {
                let c = choose|c: int| 0 <= c < t.attrs.len() && k == (t.name, t.attrs[c].0);
                assert(files2[(t.name, t.attrs[c].0)] == encode_column(t.attrs[c].1, cs1[c]).0);
                assert(e1.files[(t.name, t.attrs[c].0)] == encode_column(
                    t.attrs[c].1,
                    decode_column(t.attrs[c].1, e1.files[(t.name, t.attrs[c].0)]),
                ).0);
            }
        }
    }
    let rows1 = rows_not_matching(rows0, conds);
    lemma_rows_not_matching_fail(rows0, conds);
    lemma_rows_not_matching_keep(rows1, conds);
}


/// The position of the last column of `attrs` named `name`, or -1 where none is.
pub open spec fn last_named(attrs: Seq<(Seq<char>, Type)>, name: Seq<char>) -> int
    decreases attrs.len(),
{
    if attrs.len() == 0 {
        -1
    } else if attrs.last().0 == name {
        attrs.len() - 1
    } else {
        last_named(attrs.drop_last(), name)
    }
}

pub(crate) proof fn lemma_last_named(attrs: Seq<(Seq<char>, Type)>, c: int)
    requires
        0 <= c < attrs.len(),
    ensures
        c <= last_named(attrs, attrs[c].0) < attrs.len(),
        attrs[last_named(attrs, attrs[c].0)].0 == attrs[c].0,
        forall|j: int| last_named(attrs, attrs[c].0) < j < attrs.len() ==> (#[trigger] attrs[j]).0 != attrs[c].0,
    decreases attrs.len(),
{
    if attrs.last().0 != attrs[c].0 {
        let init = attrs.drop_last();
        assert(c < attrs.len() - 1);
        assert(init[c] == attrs[c]);
        lemma_last_named(init, c);
        let l = last_named(init, init[c].0);
        assert(init[l] == attrs[l]);
        assert forall|j: int| l < j < attrs.len() implies (#[trigger] attrs[j]).0 != attrs[c].0 by {
            if j < attrs.len() - 1 {
                assert(init[j] == attrs[j]);
            }
        }
    }
}

pub(crate) proof fn lemma_write_columns_last(
    files: Map<FileKey, Seq<u8>>,
    tname: Seq<char>,
    attrs: Seq<(Seq<char>, Type)>,
    cols: Seq<Seq<CellValue>>,
)
    requires
        cols.len() == attrs.len(),
        forall|c: int|
            0 <= c < attrs.len() ==> width(#[trigger] attrs[c].1) > 0 && files.contains_key(
                (tname, attrs[c].0),
            ),
        forall|c: int, i: int|
            0 <= c < attrs.len() && 0 <= i < cols[c].len() ==> type_matches(
                attrs[c].1,
                #[trigger] cols[c][i],
            ),
    ensures
        write_columns(files, tname, attrs, cols).1 is Ok,
        forall|k: FileKey|
            #![trigger write_columns(files, tname, attrs, cols).0.contains_key(k)]
            write_columns(files, tname, attrs, cols).0.contains_key(k) <==> files.contains_key(k),
        forall|c: int, l: int|
            #![trigger attrs[c], attrs[l]]
            0 <= c <= l < attrs.len() && attrs[l].0 == attrs[c].0 && (forall|j: int|
                l < j < attrs.len() ==> attrs[j].0 != attrs[c].0) ==> write_columns(
                files,
                tname,
                attrs,
                cols,
            ).0[(tname, attrs[c].0)] == encode_column(attrs[l].1, cols[l]).0,
        forall|k: FileKey|
            #![trigger write_columns(files, tname, attrs, cols).0[k]]
            (forall|c: int| 0 <= c < attrs.len() ==> k != (tname, attrs[c].0))
                ==> write_columns(files, tname, attrs, cols).0[k] == files[k],
    decreases attrs.len(),
{
    if attrs.len() > 0 {
        let k0 = (tname, attrs[0].0);
        assert forall|i: int| 0 <= i < cols[0].len() implies type_matches(attrs[0].1, #[trigger] cols[0][i]) by {}
        law_column_write_read(attrs[0].1, cols[0]);
        let enc = encode_column(attrs[0].1, cols[0]);
        let files1 = files.insert(k0, enc.0);
        assert(write_one(files, k0, attrs[0].1, cols[0]) == (files1, Ok::<(), Seq<char>>(())));
        let ra = attrs.drop_first();
        let rc = cols.drop_first();
        assert forall|c: int| 0 <= c < ra.len() implies width(#[trigger] ra[c].1) > 0 && files1.contains_key(
            (tname, ra[c].0),
        ) by {
            assert(ra[c] == attrs[c + 1]);
        }
        assert forall|c: int, i: int| 0 <= c < ra.len() && 0 <= i < rc[c].len() implies type_matches(
            ra[c].1,
            #[trigger] rc[c][i],
        ) by {
            assert(ra[c] == attrs[c + 1] && rc[c] == cols[c + 1]);
            assert(type_matches(attrs[c + 1].1, cols[c + 1][i]));
        }
        lemma_write_columns_last(files1, tname, ra, rc);
        let out = write_columns(files, tname, attrs, cols).0;
        let out1 = write_columns(files1, tname, ra, rc).0;
        assert(out == out1);
        assert forall|c: int, l: int|
            #![trigger attrs[c], attrs[l]]
            0 <= c <= l < attrs.len() && attrs[l].0 == attrs[c].0 && (forall|j: int|
                l < j < attrs.len() ==> attrs[j].0 != attrs[c].0) implies out[(tname, attrs[c].0)]
            == encode_column(attrs[l].1, cols[l]).0 by {
            if l == 0 {
                assert forall|d: int| 0 <= d < ra.len() implies k0 != (tname, ra[d].0) by {
                    assert(ra[d] == attrs[d + 1]);
                }
                assert(out1[k0] == files1[k0]);
            } else {
                assert(ra[l - 1] == attrs[l] && rc[l - 1] == cols[l]);
                assert forall|j: int| l - 1 < j < ra.len() implies (#[trigger] ra[j]).0 != ra[l - 1].0 by {
                    assert(ra[j] == attrs[j + 1]);
                }
                assert(out1[(tname, ra[l - 1].0)] == encode_column(ra[l - 1].1, rc[l - 1]).0);
            }
        }
        assert forall|k: FileKey| (forall|c: int| 0 <= c < attrs.len() ==> k != (tname, attrs[c].0))
            implies #[trigger] out[k] == files[k] by {
            assert forall|d: int| 0 <= d < ra.len() implies k != (tname, ra[d].0) by {
                assert(ra[d] == attrs[d + 1]);
                assert(k != (tname, attrs[d + 1].0));
            }
            assert(k != (tname, attrs[0].0));
            assert(out1[k] == files1[k]);
        }
        assert forall|k: FileKey| #[trigger] out.contains_key(k) <==> files.contains_key(k) by {
            assert(out1.contains_key(k) <==> files1.contains_key(k));
        }
    }
}

} // verus!
