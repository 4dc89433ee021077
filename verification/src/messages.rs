use vstd::prelude::*;
use vstd::string::StringExecFns;
use crate::model::{CellValue, Type, Value};
use crate::query::{kind_text, type_text};
use crate::text::concat3;

verus! {

pub open spec fn msg_table_exists(name: Seq<char>) -> Seq<char> {
    "Table with name '"@ + name + "' already exists"@
}

pub open spec fn msg_drop_missing(name: Seq<char>) -> Seq<char> {
    "Table with name '"@ + name + "' doesnt exists"@
}

pub open spec fn msg_no_table(name: Seq<char>) -> Seq<char> {
    "Table with name '"@ + name + "' doesn't exists"@
}

pub open spec fn msg_missing_attr(attr: Seq<char>) -> Seq<char> {
    "Missing attribute '"@ + attr + "'"@
}

pub open spec fn msg_unknown_attr(attr: Seq<char>) -> Seq<char> {
    "Unknown attribute '"@ + attr + "'"@
}

pub open spec fn msg_type_mismatch(attr: Seq<char>, t: Type, v: CellValue) -> Seq<char> {
    "Type mismatch for '"@ + attr + "', required '"@ + type_text(t) + "' got '"@ + kind_text(v)
        + "'"@
}

pub open spec fn msg_attr_not_in_table(attr: Seq<char>, table: Seq<char>) -> Seq<char> {
    "Attribute '"@ + attr + "' doesn't exists in table "@ + table
}

pub open spec fn msg_unreachable() -> Seq<char> {
    "Unreachable!"@
}

pub open spec fn msg_write_mismatch() -> Seq<char> {
    "Type mismatch while writing column"@
}

/// The text of the error that opening a missing file gives.
pub open spec fn msg_not_found() -> Seq<char> {
    "No such file or directory (os error 2)"@
}

pub fn table_exists_msg(name: &str) -> (r: String)
    ensures
        r@ == msg_table_exists(name@),
{
    concat3("Table with name '", name, "' already exists")
}

pub fn drop_missing_msg(name: &str) -> (r: String)
    ensures
        r@ == msg_drop_missing(name@),
{
    concat3("Table with name '", name, "' doesnt exists")
}

pub fn no_table_msg(name: &str) -> (r: String)
    ensures
        r@ == msg_no_table(name@),
{
    concat3("Table with name '", name, "' doesn't exists")
}

pub fn missing_attr_msg(attr: &str) -> (r: String)
    ensures
        r@ == msg_missing_attr(attr@),
{
    concat3("Missing attribute '", attr, "'")
}

pub fn unknown_attr_msg(attr: &str) -> (r: String)
    ensures
        r@ == msg_unknown_attr(attr@),
{
    concat3("Unknown attribute '", attr, "'")
}

pub fn type_mismatch_msg(attr: &str, t: Type, v: &Value) -> (r: String)
    ensures
        r@ == msg_type_mismatch(attr@, t, v@),
{
    let mut s = concat3("Type mismatch for '", attr, "', required '");
    let ts = t.display_text();
    s.append(ts.as_str());
    s.append("' got '");
    let vs = v.display_text();
    s.append(vs.as_str());
    s.append("'");
    s
}

pub fn attr_not_in_table_msg(attr: &str, table: &str) -> (r: String)
    ensures
        r@ == msg_attr_not_in_table(attr@, table@),
{
    let mut s = concat3("Attribute '", attr, "' doesn't exists in table ");
    s.append(table);
    s
}

pub fn unreachable_msg() -> (r: String)
    ensures
        r@ == msg_unreachable(),
{
    String::from_str("Unreachable!")
}

pub fn write_mismatch_msg() -> (r: String)
    ensures
        r@ == msg_write_mismatch(),
{
    String::from_str("Type mismatch while writing column")
}

pub fn not_found_msg() -> (r: String)
    ensures
        r@ == msg_not_found(),
{
    String::from_str("No such file or directory (os error 2)")
}

} // verus!
