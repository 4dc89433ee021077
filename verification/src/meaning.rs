use vstd::prelude::*;
use crate::model::{
    CellValue, Condition, EntityView, Operator, TableView, Type, Value, find_attr, find_value,
    find_value_from, has_attr, lemma_find_attr_spec,
};
use crate::query::{all_hold, cond_holds};
use crate::semantics::{
    Loaded, any_match, append_file, check_attrs, check_known, create_files, create_table_result,
    delete_result, drop_table_result, first_unknown, first_unknown_update, insert_result,
    kept_values, last_update_for, lemma_count_matches, lemma_load_columns_len, load_columns,
    project, row_count, row_entity, row_matches, select_result, select_rows, store_data,
    tables_without, type_matches, update_result, updated_values, validate, write_columns,
    write_one,
};
use crate::engine::{EngineView, FileKey, find_table, find_table_from, has_table, lemma_find_table_spec};
use crate::laws::{
    embeds, is_subsequence, law_update_then_select, lemma_select_unfold, lemma_select_all,
    lemma_last_named, columns_of, attr_names, table_named, holds_records, names_agree, stable,
    insertable, apply_updates, last_named, normalized, distinct_data, lemma_store_distinct,
    lemma_project_all, lemma_first_unknown_none, lemma_load_all, lemma_select_rows_len, normalized_all,
    law_decoded_types, lemma_write_columns_last, law_column_write_read,
};
use crate::messages::{
    msg_no_table, msg_drop_missing, msg_attr_not_in_table, msg_unknown_attr, msg_missing_attr,
    msg_type_mismatch,
};
use crate::codec::{decode_column, encode_cell, encode_column};

verus! {

/// Whether `d[p]` is the first entry of row `d` named `attr`.
pub open spec fn first_named(d: Seq<(Seq<char>, CellValue)>, attr: Seq<char>, p: int) -> bool {
    &&& 0 <= p < d.len()
    &&& d[p].0 == attr
    &&& forall|q: int| 0 <= q < p ==> d[q].0 != attr
}

proof fn lemma_first_named_value(d: Seq<(Seq<char>, CellValue)>, attr: Seq<char>, p: int, i: int)
    requires
        first_named(d, attr, p),
        0 <= i <= p,
    ensures
        find_value_from(d, attr, i) == Some(d[p].1),
    decreases p - i,
{
    if i < p {
        lemma_first_named_value(d, attr, p, i + 1);
    }
}

proof fn lemma_unnamed_value(d: Seq<(Seq<char>, CellValue)>, attr: Seq<char>, i: int)
    requires
        0 <= i,
        forall|q: int| 0 <= q < d.len() ==> d[q].0 != attr,
    ensures
        find_value_from(d, attr, i) is None,
    decreases d.len() - i,
{
    if i < d.len() {
        lemma_unnamed_value(d, attr, i + 1);
    }
}

/// A comparison with a text value looks at the row's first value of that
/// name: where it is the text `a`, `Eq` holds exactly when `a` is the given
/// text, `Ne` exactly when it is another text (so `Ne` is the negation of
/// `Eq`), and no ordering operator holds.
pub proof fn law_compare_text(
    d: Seq<(Seq<char>, CellValue)>,
    attr: String,
    b: String,
    op: Operator,
    p: int,
    a: Seq<char>,
)
    requires
        first_named(d, attr@, p),
        d[p].1 == CellValue::VarChar(a),
    ensures
        op == Operator::Eq ==> (cond_holds(d, Condition::Compare { attr, value: Value::VarChar(b), op })
            <==> a == b@),
        op == Operator::Ne ==> (cond_holds(d, Condition::Compare { attr, value: Value::VarChar(b), op })
            <==> a != b@),
        op != Operator::Eq && op != Operator::Ne ==> !cond_holds(
            d,
            Condition::Compare { attr, value: Value::VarChar(b), op },
        ),
{
    lemma_first_named_value(d, attr@, p, 0);
}

/// A comparison with an integer looks at the row's first value of that name:
/// where it is the integer `x`, each operator holds exactly when `x` stands
/// in that relation to the given integer.
pub proof fn law_compare_int(d: Seq<(Seq<char>, CellValue)>, attr: String, y: i32, op: Operator, p: int, x: i32)
    requires
        first_named(d, attr@, p),
        d[p].1 == CellValue::Int(x),
    ensures
        op == Operator::Eq ==> (cond_holds(d, Condition::Compare { attr, value: Value::Int(y), op }) <==> x == y),
        op == Operator::Ne ==> (cond_holds(d, Condition::Compare { attr, value: Value::Int(y), op }) <==> x != y),
        op == Operator::Gt ==> (cond_holds(d, Condition::Compare { attr, value: Value::Int(y), op }) <==> x > y),
        op == Operator::Ge ==> (cond_holds(d, Condition::Compare { attr, value: Value::Int(y), op }) <==> x >= y),
        op == Operator::Lt ==> (cond_holds(d, Condition::Compare { attr, value: Value::Int(y), op }) <==> x < y),
        op == Operator::Le ==> (cond_holds(d, Condition::Compare { attr, value: Value::Int(y), op }) <==> x <= y),
{
    lemma_first_named_value(d, attr@, p, 0);
}

/// A comparison never holds of a row without a value of that name, nor where
/// the row's first value of that name is of the other kind.
pub proof fn law_compare_mismatch(d: Seq<(Seq<char>, CellValue)>, attr: String, value: Value, op: Operator)
    requires
        (forall|q: int| 0 <= q < d.len() ==> d[q].0 != attr@) || exists|p: int|
            first_named(d, attr@, p) && ((d[p].1 is Int) != (value@ is Int)),
    ensures
        !cond_holds(d, Condition::Compare { attr, value, op }),
{
    if forall|q: int| 0 <= q < d.len() ==> d[q].0 != attr@ {
        lemma_unnamed_value(d, attr@, 0);
    } else {
        let p = choose|p: int| first_named(d, attr@, p) && ((d[p].1 is Int) != (value@ is Int));
        lemma_first_named_value(d, attr@, p, 0);
    }
}

/// A row meets `l AND r` exactly when it meets both, and `l OR r` exactly when
/// it meets either or both.
pub proof fn law_condition_connectives(d: Seq<(Seq<char>, CellValue)>, l: Condition, r: Condition)
    ensures
        cond_holds(d, Condition::And(Box::new(l), Box::new(r))) == (cond_holds(d, l) && cond_holds(d, r)),
        cond_holds(d, Condition::Or(Box::new(l), Box::new(r))) == (cond_holds(d, l) || cond_holds(d, r)),
        cond_holds(d, l) && cond_holds(d, r) ==> cond_holds(d, Condition::Or(Box::new(l), Box::new(r))),
{
}

proof fn lemma_select_rows_implied(
    t: TableView,
    cols: Seq<Seq<CellValue>>,
    names: Seq<Seq<char>>,
    c1: Seq<Condition>,
    c2: Seq<Condition>,
    n: nat,
)
    requires
        forall|d: Seq<(Seq<char>, CellValue)>| #[trigger] all_hold(d, c1) ==> all_hold(d, c2),
    ensures
        is_subsequence(select_rows(t, cols, names, c1, n), select_rows(t, cols, names, c2, n)),
    decreases n,
{
    let a = select_rows(t, cols, names, c1, n);
    let b = select_rows(t, cols, names, c2, n);
    if n == 0 {
        assert(embeds(Seq::<int>::empty(), a, b));
    } else {
        let n1 = (n - 1) as nat;
        lemma_select_rows_implied(t, cols, names, c1, c2, n1);
        let a1 = select_rows(t, cols, names, c1, n1);
        let b1 = select_rows(t, cols, names, c2, n1);
        let idx = choose|idx: Seq<int>| embeds(idx, a1, b1);
        let d = row_entity(t, cols, n - 1).data;
        if all_hold(d, c1) {
            assert(all_hold(d, c2));
            assert(embeds(idx.push(b1.len() as int), a, b));
        } else {
            assert(embeds(idx, a, b));
        }
    }
}

/// Every row that a select keeps under conditions `c1` it keeps too, in
/// order, under conditions `c2` that every row meeting `c1` meets.
pub proof fn law_select_weaker_conditions(
    e: EngineView,
    name: Seq<char>,
    names: Seq<Seq<char>>,
    c1: Seq<Condition>,
    c2: Seq<Condition>,
)
    requires
        forall|d: Seq<(Seq<char>, CellValue)>| #[trigger] all_hold(d, c1) ==> all_hold(d, c2),
    ensures
        select_result(e, name, names, c1) is Ok <==> select_result(e, name, names, c2) is Ok,
        select_result(e, name, names, c1) is Ok ==> is_subsequence(
            select_result(e, name, names, c1)->Ok_0,
            select_result(e, name, names, c2)->Ok_0,
        ),
{
    if let Some(i) = find_table(e.tables, name) {
        let t = e.tables[i];
        if let Loaded::Columns(cols) = load_columns(e.files, t.name, t.attrs) {
            lemma_select_rows_implied(t, cols, names, c1, c2, row_count(cols));
        }
    }
}

/// Selecting with `l OR r` keeps every row that selecting with `l` keeps and
/// every row that selecting with `r` keeps, rows that meet both included.
pub proof fn law_select_or(e: EngineView, name: Seq<char>, names: Seq<Seq<char>>, l: Condition, r: Condition)
    ensures
        select_result(e, name, names, seq![l]) is Ok ==> is_subsequence(
            select_result(e, name, names, seq![l])->Ok_0,
            select_result(e, name, names, seq![Condition::Or(Box::new(l), Box::new(r))])->Ok_0,
        ),
        select_result(e, name, names, seq![r]) is Ok ==> is_subsequence(
            select_result(e, name, names, seq![r])->Ok_0,
            select_result(e, name, names, seq![Condition::Or(Box::new(l), Box::new(r))])->Ok_0,
        ),
{
    let or = seq![Condition::Or(Box::new(l), Box::new(r))];
    assert forall|d: Seq<(Seq<char>, CellValue)>| #[trigger] all_hold(d, seq![l]) implies all_hold(d, or) by {
        assert(cond_holds(d, seq![l][0]));
        assert(cond_holds(d, or[0]));
    }
    assert forall|d: Seq<(Seq<char>, CellValue)>| #[trigger] all_hold(d, seq![r]) implies all_hold(d, or) by {
        assert(cond_holds(d, seq![r][0]));
        assert(cond_holds(d, or[0]));
    }
    law_select_weaker_conditions(e, name, names, seq![l], or);
    law_select_weaker_conditions(e, name, names, seq![r], or);
}


proof fn lemma_value_position(d: Seq<(Seq<char>, CellValue)>, n: Seq<char>, i: int)
    requires
        0 <= i <= d.len(),
        forall|q: int| 0 <= q < i ==> d[q].0 != n,
    ensures
        find_value_from(d, n, i) matches Some(v) ==> exists|p: int| first_named(d, n, p) && d[p].1 == v,
        find_value_from(d, n, i) is None ==> forall|q: int| 0 <= q < d.len() ==> d[q].0 != n,
    decreases d.len() - i,
{
    if i < d.len() {
        if d[i].0 == n {
            assert(first_named(d, n, i));
        } else {
            lemma_value_position(d, n, i + 1);
        }
    }
}

/// Whether value `v` is of the kind that a column of type `t` holds: any
/// integer in an INT column, any text (its length and content unchecked) in a
/// VARCHAR column.
pub open spec fn kind_fits(t: Type, v: CellValue) -> bool {
    (t is Int && v is Int) || (t is VarChar && v is VarChar)
}

/// Whether each column of `attrs` has a value in `data` whose first
/// occurrence is of the column's kind.
pub open spec fn columns_given(attrs: Seq<(Seq<char>, Type)>, data: Seq<(Seq<char>, CellValue)>) -> bool {
    forall|j: int| 0 <= j < attrs.len() ==> given(data, #[trigger] attrs[j])
}

/// Whether the first value of `data` named as column `a` is of its kind.
pub open spec fn given(data: Seq<(Seq<char>, CellValue)>, a: (Seq<char>, Type)) -> bool {
    exists|p: int| first_named(data, a.0, p) && kind_fits(a.1, data[p].1)
}

/// Whether each name in `data` is that of a column of `attrs`.
pub open spec fn names_known(attrs: Seq<(Seq<char>, Type)>, data: Seq<(Seq<char>, CellValue)>) -> bool {
    forall|p: int| 0 <= p < data.len() ==> exists|j: int| 0 <= j < attrs.len() && attrs[j].0 == #[trigger] data[p].0
}

proof fn lemma_check_attrs_iff(attrs: Seq<(Seq<char>, Type)>, data: Seq<(Seq<char>, CellValue)>)
    ensures
        check_attrs(attrs, data) is Ok <==> columns_given(attrs, data),
    decreases attrs.len(),
{
    if attrs.len() > 0 {
        let rest = attrs.drop_first();
        lemma_check_attrs_iff(rest, data);
        lemma_value_position(data, attrs[0].0, 0);
        assert forall|j: int| 0 <= j < rest.len() implies #[trigger] rest[j] == attrs[j + 1] by {}
        if columns_given(attrs, data) {
            assert forall|j: int| 0 <= j < rest.len() implies given(data, #[trigger] rest[j]) by {
                assert(given(data, attrs[j + 1]));
            }
            assert(given(data, attrs[0]));
            let p = choose|p: int| first_named(data, attrs[0].0, p) && kind_fits(attrs[0].1, data[p].1);
            lemma_first_named_value(data, attrs[0].0, p, 0);
        }
        if check_attrs(attrs, data) is Ok {
            let v = find_value(data, attrs[0].0)->0;
            let p = choose|p: int| first_named(data, attrs[0].0, p) && data[p].1 == v;
            assert forall|j: int| 0 <= j < attrs.len() implies given(data, #[trigger] attrs[j]) by {
                if j > 0 {
                    assert(given(data, rest[j - 1]));
                } else {
                    assert(first_named(data, attrs[0].0, p) && kind_fits(attrs[0].1, data[p].1));
                }
            }
        }
    }
}

proof fn lemma_check_known_iff(attrs: Seq<(Seq<char>, Type)>, data: Seq<(Seq<char>, CellValue)>)
    ensures
        check_known(attrs, data) is Ok <==> names_known(attrs, data),
    decreases data.len(),
{
    if data.len() > 0 {
        let rest = data.drop_first();
        lemma_check_known_iff(attrs, rest);
        if names_known(attrs, data) {
            assert forall|p: int| 0 <= p < rest.len() implies exists|j: int|
                0 <= j < attrs.len() && attrs[j].0 == #[trigger] rest[p].0 by {
                assert(rest[p] == data[p + 1]);
            }
            let j = choose|j: int| 0 <= j < attrs.len() && attrs[j].0 == data[0].0;
            assert(has_attr(attrs, data[0].0));
        }
        if check_known(attrs, data) is Ok {
            assert forall|p: int| 0 <= p < data.len() implies exists|j: int|
                0 <= j < attrs.len() && attrs[j].0 == #[trigger] data[p].0 by {
                if p > 0 {
                    assert(rest[p - 1] == data[p]);
                } else {
                    assert(has_attr(attrs, data[0].0));
                }
            }
        }
    }
}

/// A row validates for a table exactly when each column of the table has a
/// value in the row whose first occurrence is of the column's kind (any text
/// for a VARCHAR column, the empty text included), and each name in the row
/// is a column of the table.
pub proof fn law_validate(t: TableView, data: Seq<(Seq<char>, CellValue)>)
    ensures
        validate(t, data) is Ok <==> columns_given(t.attrs, data) && names_known(t.attrs, data),
{
    lemma_check_attrs_iff(t.attrs, data);
    lemma_check_known_iff(t.attrs, data);
}


/// The table that a lookup of `name` in `tables` finds, if any.
pub open spec fn table_found(tables: Seq<TableView>, name: Seq<char>) -> Option<TableView> {
    match find_table(tables, name) {
        Some(i) => Some(tables[i]),
        None => None,
    }
}

proof fn lemma_find_table_from_push(tables: Seq<TableView>, x: TableView, o: Seq<char>, i: int)
    requires
        0 <= i <= tables.len(),
    ensures
        find_table_from(tables.push(x), o, i) == match find_table_from(tables, o, i) {
            Some(j) => Some(j),
            None => if x.name == o {
                Some(tables.len() as int)
            } else {
                None::<int>
            },
        },
    decreases tables.len() - i,
{
    if i < tables.len() {
        assert(tables.push(x)[i] == tables[i]);
        lemma_find_table_from_push(tables, x, o, i + 1);
    } else {
        assert(tables.push(x)[i] == x);
        assert(find_table_from(tables.push(x), o, i + 1) is None);
    }
}

proof fn lemma_found_push(tables: Seq<TableView>, x: TableView, o: Seq<char>)
    ensures
        table_found(tables.push(x), o) == match table_found(tables, o) {
            Some(t) => Some(t),
            None => if x.name == o {
                Some(x)
            } else {
                None::<TableView>
            },
        },
{
    lemma_find_table_from_push(tables, x, o, 0);
    lemma_find_table_spec(tables, o);
    if let Some(j) = find_table(tables, o) {
        assert(tables.push(x)[j] == tables[j]);
    }
}

proof fn lemma_found_without(tables: Seq<TableView>, name: Seq<char>, o: Seq<char>)
    requires
        o != name,
    ensures
        table_found(tables_without(tables, name), o) == table_found(tables, o),
    decreases tables.len(),
{
    if tables.len() == 0 {
    } else {
        let init = tables.drop_last();
        let x = tables.last();
        lemma_found_without(init, name, o);
        assert(init.push(x) =~= tables);
        lemma_found_push(init, x, o);
        if x.name != name {
            lemma_found_push(tables_without(init, name), x, o);
        }
    }
}

proof fn lemma_without_is_filter(tables: Seq<TableView>, name: Seq<char>)
    ensures
        tables_without(tables, name) == tables.filter(|t: TableView| t.name != name),
    decreases tables.len(),
{
    reveal(Seq::filter);
    if tables.len() > 0 {
        lemma_without_is_filter(tables.drop_last(), name);
    }
}

proof fn lemma_load_same_files(
    f1: Map<FileKey, Seq<u8>>,
    f2: Map<FileKey, Seq<u8>>,
    tname: Seq<char>,
    attrs: Seq<(Seq<char>, Type)>,
)
    requires
        forall|k: FileKey|
            k.0 == tname ==> (#[trigger] f1.contains_key(k) == f2.contains_key(k) && (f1.contains_key(k)
                ==> f1[k] == f2[k])),
    ensures
        load_columns(f1, tname, attrs) == load_columns(f2, tname, attrs),
    decreases attrs.len(),
{
    if attrs.len() > 0 {
        lemma_load_same_files(f1, f2, tname, attrs.drop_first());
        let k = (tname, attrs[0].0);
        assert(f1.contains_key(k) == f2.contains_key(k));
    }
}

/// Dropping table `name` removes exactly the tables of that name from the
/// schema, keeping the others in their order, and exactly the files of that
/// table: every other table reads as before, so a select from it gives what
/// it gave before the drop.
pub proof fn law_drop_keeps_others(e: EngineView, name: Seq<char>)
    requires
        has_table(e.tables, name),
    ensures
        drop_table_result(e, name).1 is Ok,
        drop_table_result(e, name).0.tables == e.tables.filter(|t: TableView| t.name != name),
        forall|k: FileKey|
            k.0 != name ==> (#[trigger] drop_table_result(e, name).0.files.contains_key(k)
                == e.files.contains_key(k) && (e.files.contains_key(k) ==> drop_table_result(e, name).0.files[k]
                == e.files[k])),
        forall|other: Seq<char>, names: Seq<Seq<char>>, conds: Seq<Condition>|
            other != name ==> #[trigger] select_result(drop_table_result(e, name).0, other, names, conds)
                == select_result(e, other, names, conds),
{
    let e1 = drop_table_result(e, name).0;
    lemma_without_is_filter(e.tables, name);
    assert forall|k: FileKey| k.0 != name implies (#[trigger] e1.files.contains_key(k) == e.files.contains_key(k)
        && (e.files.contains_key(k) ==> e1.files[k] == e.files[k])) by {
        assert(Set::new(|k: FileKey| k.0 != name).contains(k));
    }
    assert forall|other: Seq<char>, names: Seq<Seq<char>>, conds: Seq<Condition>|
        other != name implies #[trigger] select_result(e1, other, names, conds) == select_result(
            e,
            other,
            names,
            conds,
        ) by {
        lemma_found_without(e.tables, name, other);
        lemma_find_table_spec(e.tables, other);
        if let Some(i) = find_table(e.tables, other) {
            let t = e.tables[i];
            let j = find_table(e1.tables, other)->0;
            assert(e1.tables[j] == t);
            assert forall|k: FileKey| k.0 == t.name implies (#[trigger] e1.files.contains_key(k)
                == e.files.contains_key(k) && (e1.files.contains_key(k) ==> e1.files[k] == e.files[k])) by {
                assert(Set::new(|k: FileKey| k.0 != name).contains(k));
            }
            lemma_load_same_files(e1.files, e.files, t.name, t.attrs);
        }
    }
}


proof fn lemma_first_column(attrs: Seq<(Seq<char>, Type)>, c: int, n: Seq<char>)
    requires
        0 <= c < attrs.len(),
        forall|k: int| 0 <= k < c ==> attrs[k].0 != attrs[c].0,
    ensures
        (find_attr(attrs, n) == Some(c)) <==> n == attrs[c].0,
{
    lemma_find_attr_spec(attrs, n);
    if n == attrs[c].0 {
        assert(has_attr(attrs, n));
        let j = find_attr(attrs, n)->0;
        if j < c {
        } else if j > c {
            assert(attrs[c].0 != n);
        }
    }
}

/// Of a list of updates, column `c` (the first of its name) takes the value of
/// the last update that names it, wherever that update stands in the list.
pub proof fn law_last_update_wins(attrs: Seq<(Seq<char>, Type)>, updates: Seq<(Seq<char>, CellValue)>, c: int, p: int)
    requires
        0 <= c < attrs.len(),
        forall|k: int| 0 <= k < c ==> attrs[k].0 != attrs[c].0,
        0 <= p < updates.len(),
        updates[p].0 == attrs[c].0,
        forall|q: int| p < q < updates.len() ==> updates[q].0 != attrs[c].0,
    ensures
        last_update_for(attrs, updates, c) == Some(updates[p].1),
    decreases updates.len(),
{
    lemma_first_column(attrs, c, updates.last().0);
    if p < updates.len() - 1 {
        let init = updates.drop_last();
        assert(init[p] == updates[p]);
        assert forall|q: int| p < q < init.len() implies init[q].0 != attrs[c].0 by {
            assert(init[q] == updates[q]);
        }
        law_last_update_wins(attrs, init, c, p);
    }
}

/// A column that no update names keeps its values.
pub proof fn law_unnamed_column_kept(attrs: Seq<(Seq<char>, Type)>, updates: Seq<(Seq<char>, CellValue)>, c: int)
    requires
        0 <= c < attrs.len(),
        forall|k: int| 0 <= k < c ==> attrs[k].0 != attrs[c].0,
        forall|q: int| 0 <= q < updates.len() ==> updates[q].0 != attrs[c].0,
    ensures
        last_update_for(attrs, updates, c) is None,
    decreases updates.len(),
{
    if updates.len() > 0 {
        lemma_first_column(attrs, c, updates.last().0);
        let init = updates.drop_last();
        assert forall|q: int| 0 <= q < init.len() implies init[q].0 != attrs[c].0 by {
            assert(init[q] == updates[q]);
        }
        law_unnamed_column_kept(attrs, init, c);
    }
}

/// After an update, row `r`, where it met the conditions, holds in column `c`,
/// whose name no other column has, the value of update `p` (as it reads back)
/// where `p` is the last update naming that column, whatever its place in the
/// list of updates; where no update names the column, its old value.  This holds under the
/// conditions of an update followed by a select.
pub proof fn law_update_sets_values(
    e: EngineView,
    name: Seq<char>,
    updates: Seq<(Seq<char>, CellValue)>,
    conds: Seq<Condition>,
    m: nat,
    r: int,
    c: int,
    p: int,
)
    requires
        find_table(e.tables, name) is Some,
        table_named(e.tables, name).attrs.len() > 0,
        names_agree(table_named(e.tables, name)),
        holds_records(e.files, table_named(e.tables, name), m),
        forall|j: int|
            0 <= j < table_named(e.tables, name).attrs.len() ==> stable(
                table_named(e.tables, name).attrs[j].1,
                decode_column(
                    #[trigger] table_named(e.tables, name).attrs[j].1,
                    e.files[(name, table_named(e.tables, name).attrs[j].0)],
                ),
            ),
        insertable(table_named(e.tables, name), updates),
        0 <= c < table_named(e.tables, name).attrs.len(),
        forall|k: int|
            0 <= k < table_named(e.tables, name).attrs.len() && k != c ==> table_named(e.tables, name).attrs[k].0
                != table_named(e.tables, name).attrs[c].0,
        0 <= r < m,
        all_hold(select_result(e, name, attr_names(table_named(e.tables, name)), Seq::empty())->Ok_0[r].data, conds),
    ensures
        select_result(e, name, attr_names(table_named(e.tables, name)), Seq::empty()) is Ok,
        select_result(update_result(e, name, updates, conds).0, name, attr_names(table_named(e.tables, name)), Seq::empty()) is Ok,
        0 <= p < updates.len() && updates[p].0 == table_named(e.tables, name).attrs[c].0 && (forall|q: int|
            p < q < updates.len() ==> updates[q].0 != table_named(e.tables, name).attrs[c].0)
            ==> select_result(
                update_result(e, name, updates, conds).0,
                name,
                attr_names(table_named(e.tables, name)),
                Seq::empty(),
            )->Ok_0[r].data[c] == (
                table_named(e.tables, name).attrs[c].0,
                normalized(table_named(e.tables, name).attrs[c].1, updates[p].1),
            ),
        (forall|q: int| 0 <= q < updates.len() ==> updates[q].0 != table_named(e.tables, name).attrs[c].0)
            ==> select_result(
            update_result(e, name, updates, conds).0,
            name,
            attr_names(table_named(e.tables, name)),
            Seq::empty(),
        )->Ok_0[r].data[c] == select_result(
            e,
            name,
            attr_names(table_named(e.tables, name)),
            Seq::empty(),
        )->Ok_0[r].data[c],
{
    let t = table_named(e.tables, name);
    let all = attr_names(t);
    let empty = Seq::<Condition>::empty();
    law_update_then_select(e, name, updates, conds, m);
    assert forall|i: int| 0 <= i < all.len() implies has_attr(t.attrs, #[trigger] all[i]) by {
        assert(all[i] == t.attrs[i].0);
    }
    lemma_select_unfold(e, name, all, empty, m);
    let cs = columns_of(e.files, t);
    lemma_select_all(t, cs, m);
    let before = select_result(e, name, all, empty)->Ok_0;
    assert(before[r] == row_entity(t, cs, r));
    let row = before[r];
    lemma_last_named(t.attrs, c);
    let l = last_named(t.attrs, t.attrs[c].0);
    assert(l == c);
    assert forall|k: int| 0 <= k < c implies t.attrs[k].0 != t.attrs[c].0 by {}
    let after = select_result(update_result(e, name, updates, conds).0, name, all, empty)->Ok_0;
    assert(after[r] == apply_updates(row, t, updates));
    if 0 <= p < updates.len() && updates[p].0 == t.attrs[c].0 && (forall|q: int|
        p < q < updates.len() ==> updates[q].0 != t.attrs[c].0) {
        law_last_update_wins(t.attrs, updates, c, p);
    }
    if forall|q: int| 0 <= q < updates.len() ==> updates[q].0 != t.attrs[c].0 {
        law_unnamed_column_kept(t.attrs, updates, c);
    }
}


/// Inserting a row that names each column of an existing table once, with a
/// value of the column's kind (any text in a VARCHAR column, the empty text
/// included), and names nothing else, succeeds.
pub proof fn law_insert_accepts(e: EngineView, ent: EntityView)
    requires
        find_table(e.tables, ent.of) is Some,
        distinct_data(ent.data),
        columns_given(table_named(e.tables, ent.of).attrs, ent.data),
        names_known(table_named(e.tables, ent.of).attrs, ent.data),
    ensures
        insert_result(e, ent).1 is Ok,
{
    let t = table_named(e.tables, ent.of);
    let data = ent.data;
    law_validate(t, data);
    assert(insertable(t, data)) by {
        assert forall|p: int| 0 <= p < data.len() implies {
            &&& has_attr(t.attrs, #[trigger] data[p].0)
            &&& type_matches(t.attrs[find_attr(t.attrs, data[p].0)->0].1, data[p].1)
        } by {
            let j = choose|j: int| 0 <= j < t.attrs.len() && t.attrs[j].0 == data[p].0;
            assert(has_attr(t.attrs, data[p].0));
            lemma_find_attr_spec(t.attrs, data[p].0);
            let f = find_attr(t.attrs, data[p].0)->0;
            assert(given(data, t.attrs[f]));
            let q = choose|q: int| first_named(data, t.attrs[f].0, q) && kind_fits(t.attrs[f].1, data[q].1);
            assert(q == p);
        }
    }
    lemma_store_distinct(e.files, t, data);
}


/// Whether `f1` and `f2` hold the same files of table `tname`.
pub open spec fn same_files_of(f1: Map<FileKey, Seq<u8>>, f2: Map<FileKey, Seq<u8>>, tname: Seq<char>) -> bool {
    forall|k: FileKey|
        k.0 == tname ==> (#[trigger] f1.contains_key(k) == f2.contains_key(k) && (f1.contains_key(k) ==> f1[k]
            == f2[k]))
}

proof fn lemma_select_same(e1: EngineView, e: EngineView, other: Seq<char>, names: Seq<Seq<char>>, conds: Seq<Condition>)
    requires
        table_found(e1.tables, other) == table_found(e.tables, other),
        same_files_of(e1.files, e.files, other),
    ensures
        select_result(e1, other, names, conds) == select_result(e, other, names, conds),
{
    lemma_find_table_spec(e.tables, other);
    lemma_find_table_spec(e1.tables, other);
    if let Some(i) = find_table(e.tables, other) {
        let t = e.tables[i];
        let j = find_table(e1.tables, other)->0;
        assert(e1.tables[j] == t);
        lemma_load_same_files(e1.files, e.files, t.name, t.attrs);
    }
}

proof fn lemma_store_frame(files: Map<FileKey, Seq<u8>>, t: TableView, data: Seq<(Seq<char>, CellValue)>, other: Seq<char>)
    requires
        other != t.name,
    ensures
        same_files_of(store_data(files, t, data).0, files, other),
    decreases data.len(),
{
    if data.len() > 0 {
        if let Some(i) = find_attr(t.attrs, data[0].0) {
            if let Some(b) = encode_cell(t.attrs[i].1, data[0].1) {
                let f1 = append_file(files, (t.name, data[0].0), b);
                lemma_store_frame(f1, t, data.drop_first(), other);
            }
        }
    }
}

proof fn lemma_write_frame(
    files: Map<FileKey, Seq<u8>>,
    tname: Seq<char>,
    attrs: Seq<(Seq<char>, Type)>,
    cols: Seq<Seq<CellValue>>,
    other: Seq<char>,
)
    requires
        other != tname,
    ensures
        same_files_of(write_columns(files, tname, attrs, cols).0, files, other),
    decreases attrs.len(),
{
    if attrs.len() > 0 && cols.len() > 0 {
        let w = write_one(files, (tname, attrs[0].0), attrs[0].1, cols[0]);
        lemma_write_frame(w.0, tname, attrs.drop_first(), cols.drop_first(), other);
    }
}

proof fn lemma_create_frame(files: Map<FileKey, Seq<u8>>, tname: Seq<char>, attrs: Seq<(Seq<char>, Type)>, other: Seq<char>)
    requires
        other != tname,
    ensures
        same_files_of(create_files(files, tname, attrs), files, other),
    decreases attrs.len(),
{
    if attrs.len() > 0 {
        lemma_create_frame(files, tname, attrs.drop_last(), other);
    }
}

/// Inserting into one table leaves every other table as it was: a select
/// from another table gives what it gave before.
pub proof fn law_insert_keeps_others(
    e: EngineView,
    ent: EntityView,
    other: Seq<char>,
    names: Seq<Seq<char>>,
    conds: Seq<Condition>,
)
    requires
        other != ent.of,
    ensures
        select_result(insert_result(e, ent).0, other, names, conds) == select_result(e, other, names, conds),
{
    lemma_find_table_spec(e.tables, ent.of);
    if let Some(i) = find_table(e.tables, ent.of) {
        lemma_store_frame(e.files, e.tables[i], ent.data, other);
    }
    lemma_select_same(insert_result(e, ent).0, e, other, names, conds);
}

/// Deleting rows of one table leaves every other table as it was.
pub proof fn law_delete_keeps_others(
    e: EngineView,
    name: Seq<char>,
    dconds: Seq<Condition>,
    other: Seq<char>,
    names: Seq<Seq<char>>,
    conds: Seq<Condition>,
)
    requires
        other != name,
    ensures
        select_result(delete_result(e, name, dconds).0, other, names, conds) == select_result(e, other, names, conds),
{
    lemma_find_table_spec(e.tables, name);
    if let Some(i) = find_table(e.tables, name) {
        let t = e.tables[i];
        if let Loaded::Columns(cs) = load_columns(e.files, t.name, t.attrs) {
            let n = row_count(cs);
            let kept = Seq::new(cs.len(), |c: int| kept_values(cs[c], t, cs, dconds, n));
            lemma_write_frame(e.files, t.name, t.attrs, kept, other);
        }
    }
    lemma_select_same(delete_result(e, name, dconds).0, e, other, names, conds);
}

/// Updating rows of one table leaves every other table as it was.
pub proof fn law_update_keeps_others(
    e: EngineView,
    name: Seq<char>,
    updates: Seq<(Seq<char>, CellValue)>,
    uconds: Seq<Condition>,
    other: Seq<char>,
    names: Seq<Seq<char>>,
    conds: Seq<Condition>,
)
    requires
        other != name,
    ensures
        select_result(update_result(e, name, updates, uconds).0, other, names, conds) == select_result(
            e,
            other,
            names,
            conds,
        ),
{
    lemma_find_table_spec(e.tables, name);
    if let Some(i) = find_table(e.tables, name) {
        let t = e.tables[i];
        if let Loaded::Columns(cs) = load_columns(e.files, t.name, t.attrs) {
            let n = row_count(cs);
            let newc = Seq::new(
                cs.len(),
                |c: int| updated_values(cs[c], t, cs, uconds, n, last_update_for(t.attrs, updates, c)),
            );
            lemma_write_frame(e.files, t.name, t.attrs, newc, other);
        }
    }
    lemma_select_same(update_result(e, name, updates, uconds).0, e, other, names, conds);
}

/// Creating a table leaves every other table as it was.
pub proof fn law_create_keeps_others(
    e: EngineView,
    t: TableView,
    other: Seq<char>,
    names: Seq<Seq<char>>,
    conds: Seq<Condition>,
)
    requires
        other != t.name,
    ensures
        select_result(create_table_result(e, t).0, other, names, conds) == select_result(e, other, names, conds),
{
    lemma_found_push(e.tables, t, other);
    lemma_create_frame(e.files, t.name, t.attrs, other);
    lemma_select_same(create_table_result(e, t).0, e, other, names, conds);
}


/// Row `r` cut to the values whose names are among `names`, in order.
pub open spec fn cut_row(r: EntityView, names: Seq<Seq<char>>) -> EntityView {
    EntityView { of: r.of, data: r.data.filter(|d: (Seq<char>, CellValue)| names.contains(d.0)) }
}

proof fn lemma_project_filter(data: Seq<(Seq<char>, CellValue)>, names: Seq<Seq<char>>)
    ensures
        project(data, names) == data.filter(|d: (Seq<char>, CellValue)| names.contains(d.0)),
    decreases data.len(),
{
    reveal(Seq::filter);
    if data.len() > 0 {
        lemma_project_filter(data.drop_last(), names);
    }
}

proof fn lemma_select_rows_cut(
    t: TableView,
    cols: Seq<Seq<CellValue>>,
    names: Seq<Seq<char>>,
    conds: Seq<Condition>,
    n: nat,
)
    requires
        cols.len() == t.attrs.len(),
    ensures
        select_rows(t, cols, names, conds, n) == select_rows(t, cols, attr_names(t), conds, n).map_values(
            |r: EntityView| cut_row(r, names),
        ),
    decreases n,
{
    let all = attr_names(t);
    if n == 0 {
        assert(select_rows(t, cols, names, conds, n) =~= select_rows(t, cols, all, conds, n).map_values(
            |r: EntityView| cut_row(r, names),
        ));
    } else {
        lemma_select_rows_cut(t, cols, names, conds, (n - 1) as nat);
        let row = row_entity(t, cols, n - 1);
        assert forall|i: int| 0 <= i < row.data.len() implies all.contains(#[trigger] row.data[i].0) by {
            assert(all[i] == row.data[i].0);
        }
        lemma_project_all(row.data, all);
        lemma_project_filter(row.data, names);
        assert(select_rows(t, cols, names, conds, n) =~= select_rows(t, cols, all, conds, n).map_values(
            |r: EntityView| cut_row(r, names),
        ));
    }
}

/// Selecting some known columns gives the rows that selecting every column
/// gives, under the same conditions, each cut to the selected columns in the
/// table's order.
pub proof fn law_select_projection(e: EngineView, name: Seq<char>, names: Seq<Seq<char>>, conds: Seq<Condition>)
    requires
        find_table(e.tables, name) is Some,
        forall|i: int| 0 <= i < names.len() ==> has_attr(table_named(e.tables, name).attrs, #[trigger] names[i]),
    ensures
        select_result(e, name, names, conds) is Ok <==> select_result(
            e,
            name,
            attr_names(table_named(e.tables, name)),
            conds,
        ) is Ok,
        select_result(e, name, names, conds) is Ok ==> select_result(e, name, names, conds)->Ok_0
            == select_result(e, name, attr_names(table_named(e.tables, name)), conds)->Ok_0.map_values(
            |r: EntityView| cut_row(r, names),
        ),
{
    let t = table_named(e.tables, name);
    let all = attr_names(t);
    assert forall|i: int| 0 <= i < all.len() implies has_attr(t.attrs, #[trigger] all[i]) by {
        assert(all[i] == t.attrs[i].0);
    }
    lemma_first_unknown_none(t.attrs, names);
    lemma_first_unknown_none(t.attrs, all);
    lemma_load_columns_len(e.files, t.name, t.attrs);
    if let Loaded::Columns(cs) = load_columns(e.files, t.name, t.attrs) {
        lemma_select_rows_cut(t, cs, names, conds, row_count(cs));
    }
}


/// An update returns the number of rows that meet its conditions: as many as
/// a select with those conditions gives just before.  This holds under the
/// conditions of an update followed by a select.
pub proof fn law_update_count(
    e: EngineView,
    name: Seq<char>,
    updates: Seq<(Seq<char>, CellValue)>,
    conds: Seq<Condition>,
    m: nat,
)
    requires
        find_table(e.tables, name) is Some,
        table_named(e.tables, name).attrs.len() > 0,
        names_agree(table_named(e.tables, name)),
        holds_records(e.files, table_named(e.tables, name), m),
        forall|j: int|
            0 <= j < table_named(e.tables, name).attrs.len() ==> stable(
                table_named(e.tables, name).attrs[j].1,
                decode_column(
                    #[trigger] table_named(e.tables, name).attrs[j].1,
                    e.files[(name, table_named(e.tables, name).attrs[j].0)],
                ),
            ),
        insertable(table_named(e.tables, name), updates),
    ensures
        select_result(e, name, attr_names(table_named(e.tables, name)), conds) is Ok,
        update_result(e, name, updates, conds).1 == Ok::<usize, Seq<char>>(
            select_result(e, name, attr_names(table_named(e.tables, name)), conds)->Ok_0.len() as usize,
        ),
{
    let t = table_named(e.tables, name);
    let all = attr_names(t);
    law_update_then_select(e, name, updates, conds, m);
    assert forall|i: int| 0 <= i < all.len() implies has_attr(t.attrs, #[trigger] all[i]) by {
        assert(all[i] == t.attrs[i].0);
    }
    lemma_select_unfold(e, name, all, conds, m);
    lemma_load_all(e.files, t.name, t.attrs);
    lemma_select_rows_len(t, columns_of(e.files, t), all, conds, m);
}

/// An update whose conditions no row meets returns 0, whatever its updates
/// name, and leaves each column reading its old values as they read back once
/// rewritten (columns that share a name having the same type).
pub proof fn law_update_no_match(
    e: EngineView,
    name: Seq<char>,
    updates: Seq<(Seq<char>, CellValue)>,
    conds: Seq<Condition>,
    m: nat,
)
    requires
        find_table(e.tables, name) is Some,
        table_named(e.tables, name).attrs.len() > 0,
        names_agree(table_named(e.tables, name)),
        holds_records(e.files, table_named(e.tables, name), m),
        select_result(e, name, attr_names(table_named(e.tables, name)), conds) == Ok::<Seq<EntityView>, Seq<char>>(
            Seq::empty(),
        ),
    ensures
        update_result(e, name, updates, conds).1 == Ok::<usize, Seq<char>>(0),
        forall|j: int|
            0 <= j < table_named(e.tables, name).attrs.len() ==> #[trigger] decode_column(
                table_named(e.tables, name).attrs[j].1,
                update_result(e, name, updates, conds).0.files[(name, table_named(e.tables, name).attrs[j].0)],
            ) == normalized_all(
                table_named(e.tables, name).attrs[j].1,
                decode_column(table_named(e.tables, name).attrs[j].1, e.files[(name, table_named(e.tables, name).attrs[j].0)]),
            ),
{
    let t = table_named(e.tables, name);
    let all = attr_names(t);
    assert forall|i: int| 0 <= i < all.len() implies has_attr(t.attrs, #[trigger] all[i]) by {
        assert(all[i] == t.attrs[i].0);
    }
    lemma_select_unfold(e, name, all, conds, m);
    lemma_load_all(e.files, t.name, t.attrs);
    let cs = columns_of(e.files, t);
    lemma_select_rows_len(t, cs, all, conds, m);
    lemma_count_matches(t, cs, conds, m);
    let newc = Seq::new(
        cs.len(),
        |c: int| updated_values(cs[c], t, cs, conds, m, last_update_for(t.attrs, updates, c)),
    );
    assert forall|c: int| 0 <= c < cs.len() implies #[trigger] newc[c] == cs[c] by {
        assert forall|r: int| 0 <= r < m implies !row_matches(t, cs, conds, r) by {
            if row_matches(t, cs, conds, r) {
                assert(any_match(t, cs, conds, m));
            }
        }
        assert(newc[c] =~= cs[c]);
    }
    assert(newc =~= cs);
    assert forall|c: int, i: int| 0 <= c < t.attrs.len() && 0 <= i < cs[c].len() implies type_matches(
        t.attrs[c].1,
        #[trigger] cs[c][i],
    ) by {
        law_decoded_types(t.attrs[c].1, e.files[(t.name, t.attrs[c].0)]);
    }
    lemma_write_columns_last(e.files, t.name, t.attrs, cs);
    let files2 = write_columns(e.files, t.name, t.attrs, cs).0;
    assert forall|j: int| 0 <= j < t.attrs.len() implies #[trigger] decode_column(
        t.attrs[j].1,
        files2[(name, t.attrs[j].0)],
    ) == normalized_all(t.attrs[j].1, decode_column(t.attrs[j].1, e.files[(name, t.attrs[j].0)])) by {
        lemma_last_named(t.attrs, j);
        let l = last_named(t.attrs, t.attrs[j].0);
        assert(t.attrs[l].1 == t.attrs[j].1);
        assert(files2[(t.name, t.attrs[j].0)] == encode_column(t.attrs[l].1, cs[l]).0);
        law_column_write_read(t.attrs[l].1, cs[l]);
        assert(cs[l] == cs[j]);
    }
}


proof fn lemma_first_unknown_at(attrs: Seq<(Seq<char>, Type)>, names: Seq<Seq<char>>, p: int)
    requires
        0 <= p < names.len(),
        !has_attr(attrs, names[p]),
        forall|q: int| 0 <= q < p ==> has_attr(attrs, #[trigger] names[q]),
    ensures
        first_unknown(attrs, names) == Some(names[p]),
    decreases p,
{
    if p > 0 {
        let rest = names.drop_first();
        assert(has_attr(attrs, names[0]));
        assert forall|q: int| 0 <= q < p - 1 implies has_attr(attrs, #[trigger] rest[q]) by {
            assert(rest[q] == names[q + 1]);
        }
        lemma_first_unknown_at(attrs, rest, p - 1);
    }
}

proof fn lemma_first_unknown_update_at(attrs: Seq<(Seq<char>, Type)>, updates: Seq<(Seq<char>, CellValue)>, p: int)
    requires
        0 <= p < updates.len(),
        !has_attr(attrs, updates[p].0),
        forall|q: int| 0 <= q < p ==> has_attr(attrs, #[trigger] updates[q].0),
    ensures
        first_unknown_update(attrs, updates) == Some(updates[p].0),
    decreases p,
{
    if p > 0 {
        let rest = updates.drop_first();
        assert(has_attr(attrs, updates[0].0));
        assert forall|q: int| 0 <= q < p - 1 implies has_attr(attrs, #[trigger] rest[q].0) by {
            assert(rest[q] == updates[q + 1]);
        }
        lemma_first_unknown_update_at(attrs, rest, p - 1);
    }
}

/// Every operation on a table that does not exist is refused with the error
/// for a missing table, and changes nothing.
pub proof fn law_missing_table(
    e: EngineView,
    name: Seq<char>,
    names: Seq<Seq<char>>,
    conds: Seq<Condition>,
    updates: Seq<(Seq<char>, CellValue)>,
    data: Seq<(Seq<char>, CellValue)>,
)
    requires
        !has_table(e.tables, name),
    ensures
        select_result(e, name, names, conds) == Err::<Seq<EntityView>, Seq<char>>(msg_no_table(name)),
        insert_result(e, EntityView { of: name, data }) == (e, Err::<(), Seq<char>>(msg_no_table(name))),
        delete_result(e, name, conds) == (e, Err::<usize, Seq<char>>(msg_no_table(name))),
        update_result(e, name, updates, conds) == (e, Err::<usize, Seq<char>>(msg_no_table(name))),
        drop_table_result(e, name) == (e, Err::<(), Seq<char>>(msg_drop_missing(name))),
{
    lemma_find_table_spec(e.tables, name);
}

/// A select naming a column that the table lacks is refused with an error
/// naming the first such column.
pub proof fn law_select_unknown_column(e: EngineView, name: Seq<char>, names: Seq<Seq<char>>, conds: Seq<Condition>, p: int)
    requires
        has_table(e.tables, name),
        0 <= p < names.len(),
        !has_attr(table_named(e.tables, name).attrs, names[p]),
        forall|q: int| 0 <= q < p ==> has_attr(table_named(e.tables, name).attrs, #[trigger] names[q]),
    ensures
        select_result(e, name, names, conds) == Err::<Seq<EntityView>, Seq<char>>(
            msg_attr_not_in_table(names[p], name),
        ),
{
    lemma_find_table_spec(e.tables, name);
    lemma_first_unknown_at(table_named(e.tables, name).attrs, names, p);
}

/// An update naming a column that the table lacks is refused, with an error
/// naming the first such update, where some row meets its conditions; it then
/// changes nothing.
pub proof fn law_update_unknown_column(
    e: EngineView,
    name: Seq<char>,
    updates: Seq<(Seq<char>, CellValue)>,
    conds: Seq<Condition>,
    m: nat,
    p: int,
)
    requires
        find_table(e.tables, name) is Some,
        table_named(e.tables, name).attrs.len() > 0,
        holds_records(e.files, table_named(e.tables, name), m),
        select_result(e, name, attr_names(table_named(e.tables, name)), conds)->Ok_0.len() > 0,
        0 <= p < updates.len(),
        !has_attr(table_named(e.tables, name).attrs, updates[p].0),
        forall|q: int| 0 <= q < p ==> has_attr(table_named(e.tables, name).attrs, #[trigger] updates[q].0),
    ensures
        update_result(e, name, updates, conds) == (e, Err::<usize, Seq<char>>(msg_unknown_attr(updates[p].0))),
{
    let t = table_named(e.tables, name);
    let all = attr_names(t);
    assert forall|i: int| 0 <= i < all.len() implies has_attr(t.attrs, #[trigger] all[i]) by {
        assert(all[i] == t.attrs[i].0);
    }
    lemma_select_unfold(e, name, all, conds, m);
    lemma_load_all(e.files, t.name, t.attrs);
    let cs = columns_of(e.files, t);
    lemma_select_rows_len(t, cs, all, conds, m);
    lemma_count_matches(t, cs, conds, m);
    lemma_first_unknown_update_at(t.attrs, updates, p);
}

proof fn lemma_check_attrs_at(attrs: Seq<(Seq<char>, Type)>, data: Seq<(Seq<char>, CellValue)>, j: int)
    requires
        0 <= j < attrs.len(),
        forall|i: int| 0 <= i < j ==> given(data, #[trigger] attrs[i]),
        !given(data, attrs[j]),
    ensures
        check_attrs(attrs, data) == match find_value(data, attrs[j].0) {
            None => Err::<(), Seq<char>>(msg_missing_attr(attrs[j].0)),
            Some(v) => Err::<(), Seq<char>>(msg_type_mismatch(attrs[j].0, attrs[j].1, v)),
        },
    decreases j,
{
    let rest = attrs.drop_first();
    lemma_value_position(data, attrs[0].0, 0);
    if j > 0 {
        assert(given(data, attrs[0]));
        let p = choose|p: int| first_named(data, attrs[0].0, p) && kind_fits(attrs[0].1, data[p].1);
        lemma_first_named_value(data, attrs[0].0, p, 0);
        assert forall|i: int| 0 <= i < j - 1 implies given(data, #[trigger] rest[i]) by {
            assert(rest[i] == attrs[i + 1]);
            assert(given(data, attrs[i + 1]));
        }
        assert(rest[j - 1] == attrs[j]);
        lemma_check_attrs_at(rest, data, j - 1);
    } else {
        if let Some(v) = find_value(data, attrs[0].0) {
            let p = choose|p: int| first_named(data, attrs[0].0, p) && data[p].1 == v;
            if type_matches(attrs[0].1, v) {
                assert(given(data, attrs[0]));
            }
        }
    }
}

proof fn lemma_check_known_at(attrs: Seq<(Seq<char>, Type)>, data: Seq<(Seq<char>, CellValue)>, p: int)
    requires
        0 <= p < data.len(),
        !has_attr(attrs, data[p].0),
        forall|q: int| 0 <= q < p ==> has_attr(attrs, #[trigger] data[q].0),
    ensures
        check_known(attrs, data) == Err::<(), Seq<char>>(msg_unknown_attr(data[p].0)),
    decreases p,
{
    if p > 0 {
        let rest = data.drop_first();
        assert(has_attr(attrs, data[0].0));
        assert forall|q: int| 0 <= q < p - 1 implies has_attr(attrs, #[trigger] rest[q].0) by {
            assert(rest[q] == data[q + 1]);
        }
        lemma_check_known_at(attrs, rest, p - 1);
    }
}

/// The error that refuses a row: for the first column, in the table's order,
/// without a value of its kind, that the row lacks the column or, where its
/// first value of that name is of the other kind, the mismatch; where every
/// column has its value, the first name in the row that is no column.
pub proof fn law_validate_errors(t: TableView, data: Seq<(Seq<char>, CellValue)>, j: int, p: int)
    ensures
        0 <= j < t.attrs.len() && (forall|i: int| 0 <= i < j ==> given(data, #[trigger] t.attrs[i])) && (forall|q: int|
            0 <= q < data.len() ==> data[q].0 != t.attrs[j].0) ==> validate(t, data) == Err::<(), Seq<char>>(
            msg_missing_attr(t.attrs[j].0),
        ),
        0 <= j < t.attrs.len() && (forall|i: int| 0 <= i < j ==> given(data, #[trigger] t.attrs[i]))
            && first_named(data, t.attrs[j].0, p) && !kind_fits(t.attrs[j].1, data[p].1) ==> validate(t, data)
            == Err::<(), Seq<char>>(msg_type_mismatch(t.attrs[j].0, t.attrs[j].1, data[p].1)),
        columns_given(t.attrs, data) && 0 <= p < data.len() && !has_attr(t.attrs, data[p].0) && (forall|q: int|
            0 <= q < p ==> has_attr(t.attrs, #[trigger] data[q].0)) ==> validate(t, data) == Err::<(), Seq<char>>(
            msg_unknown_attr(data[p].0),
        ),
{
    if 0 <= j < t.attrs.len() && (forall|i: int| 0 <= i < j ==> given(data, #[trigger] t.attrs[i])) {
        if forall|q: int| 0 <= q < data.len() ==> data[q].0 != t.attrs[j].0 {
            lemma_unnamed_value(data, t.attrs[j].0, 0);
            assert(!given(data, t.attrs[j]));
            lemma_check_attrs_at(t.attrs, data, j);
        }
        if first_named(data, t.attrs[j].0, p) && !kind_fits(t.attrs[j].1, data[p].1) {
            lemma_first_named_value(data, t.attrs[j].0, p, 0);
            if given(data, t.attrs[j]) {
                let q = choose|q: int| first_named(data, t.attrs[j].0, q) && kind_fits(t.attrs[j].1, data[q].1);
                assert(q == p);
            }
            lemma_check_attrs_at(t.attrs, data, j);
        }
    }
    if columns_given(t.attrs, data) && 0 <= p < data.len() && !has_attr(t.attrs, data[p].0) && (forall|q: int|
        0 <= q < p ==> has_attr(t.attrs, #[trigger] data[q].0)) {
        lemma_check_attrs_iff(t.attrs, data);
        lemma_check_known_at(t.attrs, data, p);
    }
}

} // verus!
