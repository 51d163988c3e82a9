//! One record of a table.

use vstd::prelude::*;
use crate::kind::FunctionType;

verus! {

/// The descriptor of one native function.
#[derive(Debug, Clone, PartialEq, Eq)]
pub struct NativeTableItem {
    /// The code by which the engine dispatches to the function.
    pub opcode: u32,
    /// The name of the function in script code.
    pub name: String,
    /// Binding strength; stored for every kind, read for operators.
    pub oper_precedence: u8,
    /// How the function is called.
    pub typ: FunctionType,
}

/// A record as a mathematical value: the name is its sequence of characters.
pub struct ItemView {
    pub opcode: u32,
    pub name: Seq<char>,
    pub oper_precedence: u8,
    pub typ: FunctionType,
}

impl View for NativeTableItem {
    type V = ItemView;

    open spec fn view(&self) -> ItemView {
        ItemView {
            opcode: self.opcode,
            name: self.name@,
            oper_precedence: self.oper_precedence,
            typ: self.typ,
        }
    }
}

/// The records of a table as mathematical values, in the table's order.
pub open spec fn table_view(items: Seq<NativeTableItem>) -> Seq<ItemView> {
    items.map_values(|it: NativeTableItem| it@)
}

} // verus!
