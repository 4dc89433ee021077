use vstd::prelude::*;

verus! {

/// A comparison operator of a condition.
#[derive(Clone, Copy, Debug, PartialEq, Eq, Structural)]
pub enum Operator {
    Eq,
    Ne,
    Lt,
    Le,
    Gt,
    Ge,
}

/// The type of a column.  `VarChar(n)` columns store every value in exactly `n` bytes.
#[derive(Clone, Copy, Debug, PartialEq, Eq, Structural)]
pub enum Type {
    Int,
    VarChar(usize),
}

/// A column of a table.
#[derive(Clone, Debug)]
pub struct Attr {
    pub name: String,
    pub data_type: Type,
}

/// A table: its name and its columns, in order.
#[derive(Clone, Debug)]
pub struct Table {
    pub name: String,
    pub attrs: Vec<Attr>,
}

/// A value stored in a cell.
#[derive(Clone, Debug)]
pub enum Value {
    Int(i32),
    VarChar(String),
}

/// A named value of a row.
#[derive(Debug)]
pub struct Data {
    pub name: String,
    pub value: Value,
}

/// A row of the table named `of`.
#[derive(Debug)]
pub struct Entity {
    pub of: String,
    pub data: Vec<Data>,
}

/// A filter on rows.
#[derive(Debug)]
pub enum Condition {
    Compare { attr: String, value: Value, op: Operator },
    And(Box<Condition>, Box<Condition>),
    Or(Box<Condition>, Box<Condition>),
}

/// The mathematical content of a cell.
pub enum CellValue {
    Int(i32),
    VarChar(Seq<char>),
}

/// The mathematical content of a table: its name and its (column name, column type) pairs.
pub struct TableView {
    pub name: Seq<char>,
    pub attrs: Seq<(Seq<char>, Type)>,
}

/// The mathematical content of a row: its table's name and its (column name, value) pairs.
pub struct EntityView {
    pub of: Seq<char>,
    pub data: Seq<(Seq<char>, CellValue)>,
}

impl View for Value {
    type V = CellValue;

    open spec fn view(&self) -> CellValue {
        match self {
            Value::Int(v) => CellValue::Int(*v),
            Value::VarChar(s) => CellValue::VarChar(s@),
        }
    }
}

impl View for Attr {
    type V = (Seq<char>, Type);

    open spec fn view(&self) -> (Seq<char>, Type) {
        (self.name@, self.data_type)
    }
}

impl View for Table {
    type V = TableView;

    open spec fn view(&self) -> TableView {
        TableView { name: self.name@, attrs: self.attrs@.map_values(|a: Attr| a@) }
    }
}

impl View for Data {
    type V = (Seq<char>, CellValue);

    open spec fn view(&self) -> (Seq<char>, CellValue) {
        (self.name@, self.value@)
    }
}

impl View for Entity {
    type V = EntityView;

    open spec fn view(&self) -> EntityView {
        EntityView { of: self.of@, data: self.data@.map_values(|d: Data| d@) }
    }
}

/// The views of a sequence of rows.
pub open spec fn entities_view(es: Seq<Entity>) -> Seq<EntityView> {
    es.map_values(|e: Entity| e@)
}

/// The index of the first column of `attrs` named `name`, searching from `i` on.
pub open spec fn find_attr_from(attrs: Seq<(Seq<char>, Type)>, name: Seq<char>, i: int) -> Option<int>
    decreases attrs.len() - i,
{
    if i < 0 || i >= attrs.len() {
        None
    } else if attrs[i].0 == name {
        Some(i)
    } else {
        find_attr_from(attrs, name, i + 1)
    }
}

/// The index of the first column of `attrs` named `name`.
pub open spec fn find_attr(attrs: Seq<(Seq<char>, Type)>, name: Seq<char>) -> Option<int> {
    find_attr_from(attrs, name, 0)
}

/// Whether some column of `attrs` is named `name`.
pub open spec fn has_attr(attrs: Seq<(Seq<char>, Type)>, name: Seq<char>) -> bool {
    exists|i: int| 0 <= i < attrs.len() && #[trigger] attrs[i].0 == name
}

/// The first value named `name` in `data`, searching from `i` on.
pub open spec fn find_value_from(data: Seq<(Seq<char>, CellValue)>, name: Seq<char>, i: int) -> Option<
    CellValue,
>
    decreases data.len() - i,
{
    if i < 0 || i >= data.len() {
        None
    } else if data[i].0 == name {
        Some(data[i].1)
    } else {
        find_value_from(data, name, i + 1)
    }
}

/// The first value named `name` in `data`.
pub open spec fn find_value(data: Seq<(Seq<char>, CellValue)>, name: Seq<char>) -> Option<CellValue> {
    find_value_from(data, name, 0)
}

pub proof fn lemma_find_attr_from_spec(attrs: Seq<(Seq<char>, Type)>, name: Seq<char>, i: int)
    requires
        0 <= i <= attrs.len(),
    ensures
        find_attr_from(attrs, name, i) matches Some(j) ==> i <= j < attrs.len() && attrs[j].0 == name
            && forall|k: int| i <= k < j ==> attrs[k].0 != name,
        find_attr_from(attrs, name, i) is None ==> forall|k: int|
            i <= k < attrs.len() ==> attrs[k].0 != name,
    decreases attrs.len() - i,
{
    if i < attrs.len() {
        lemma_find_attr_from_spec(attrs, name, i + 1);
    }
}

pub proof fn lemma_find_attr_spec(attrs: Seq<(Seq<char>, Type)>, name: Seq<char>)
    ensures
        find_attr(attrs, name) matches Some(j) ==> 0 <= j < attrs.len() && attrs[j].0 == name
            && forall|k: int| 0 <= k < j ==> attrs[k].0 != name,
        find_attr(attrs, name) is None <==> !has_attr(attrs, name),
{
    lemma_find_attr_from_spec(attrs, name, 0);
}

impl Table {
    /// Whether the table has a column named `attr_name`.
    pub fn attr_exists(&self, attr_name: &str) -> (r: bool)
        ensures
            r == has_attr(self@.attrs, attr_name@),
    {
        let mut i: usize = 0;
        while i < self.attrs.len()
            invariant
                i <= self.attrs@.len(),
                forall|k: int| 0 <= k < i ==> self.attrs@[k].name@ != attr_name@,
            decreases self.attrs@.len() - i,
        {
            if crate::text::str_eq(attr_name, self.attrs[i].name.as_str()) {
                assert(self@.attrs[i as int].0 == attr_name@);
                return true;
            }
            i = i + 1;
        }
        assert forall|k: int| 0 <= k < self@.attrs.len() implies #[trigger] self@.attrs[k].0
            != attr_name@ by {
            assert(self@.attrs[k] == self.attrs@[k]@);
        }
        false
    }
}

} // verus!

verus! {

impl Value {
    /// A copy of the value.
    pub fn duplicate(&self) -> (r: Value)
        ensures
            r@ == self@,
    {
        match self {
            Value::Int(v) => Value::Int(*v),
            Value::VarChar(s) => Value::VarChar(s.clone()),
        }
    }
}

impl Attr {
    /// A copy of the column.
    pub fn duplicate(&self) -> (r: Attr)
        ensures
            r@ == self@,
    {
        Attr { name: self.name.clone(), data_type: self.data_type }
    }
}

impl Table {
    /// A copy of the table.
    pub fn duplicate(&self) -> (r: Table)
        ensures
            r@ == self@,
    {
        let mut attrs: Vec<Attr> = Vec::new();
        let mut i: usize = 0;
        while i < self.attrs.len()
            invariant
                i <= self.attrs@.len(),
                attrs@.len() == i,
                forall|k: int| 0 <= k < i ==> #[trigger] attrs@[k]@ == self.attrs@[k]@,
            decreases self.attrs@.len() - i,
        {
            attrs.push(self.attrs[i].duplicate());
            i = i + 1;
        }
        let r = Table { name: self.name.clone(), attrs };
        assert(r@.attrs =~= self@.attrs);
        r
    }
}

} // verus!
