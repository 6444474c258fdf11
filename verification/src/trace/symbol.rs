//! Symbols: the functions that frames belong to.
use crate::text;
use std::sync::Arc;
use vstd::prelude::*;
use vstd::std_specs::cmp::PartialEqSpecImpl;

verus! {

/// A function of the traced program: its name and the addresses that it takes up.
#[derive(Debug, Hash)]
pub struct SymbolInfo {
    pub name: String,
    pub offset: u64,
    pub size: u64,
}

/// What a symbol is: its name as a sequence of characters, and its addresses.
pub struct SymbolModel {
    pub name: Seq<char>,
    pub offset: u64,
    pub size: u64,
}

impl SymbolModel {
    /// The address lies in the symbol.
    pub open spec fn contains(self, addr: u64) -> bool {
        self.offset <= addr < self.offset + self.size
    }

    pub open spec fn text(self) -> Seq<char> {
        "[0x"@ + text::hexadecimal(self.offset as nat) + " - 0x"@ + text::hexadecimal(
            (self.offset + self.size) as nat,
        ) + "] "@ + self.name
    }
}

impl View for SymbolInfo {
    type V = SymbolModel;

    open spec fn view(&self) -> SymbolModel {
        SymbolModel { name: self.name@, offset: self.offset, size: self.size }
    }
}

impl SymbolInfo {
    /// Whether the address lies in the symbol.
    pub fn contains(&self, addr: u64) -> (result: bool)
        ensures
            result == self@.contains(addr),
    {
        self.offset <= addr && addr - self.offset < self.size
    }

    /// The text `[0x.. - 0x..] name`.
    pub fn to_string(&self) -> (result: String)
        requires
            self.offset + self.size <= u64::MAX,
        ensures
            result@ == self@.text(),
    {
        let mut out = String::new();
        out.append("[0x");
        text::push_hexadecimal(&mut out, self.offset);
        out.append(" - 0x");
        text::push_hexadecimal(&mut out, self.offset + self.size);
        out.append("] ");
        out.append(self.name.as_str());
        assert(out@ =~= self@.text());
        out
    }
}

impl Clone for SymbolInfo {
    fn clone(&self) -> (result: Self)
        ensures
            result@ == self@,
    {
        SymbolInfo { name: self.name.clone(), offset: self.offset, size: self.size }
    }
}

impl PartialEqSpecImpl for SymbolInfo {
    open spec fn obeys_eq_spec() -> bool {
        true
    }

    open spec fn eq_spec(&self, other: &SymbolInfo) -> bool {
        self@ == other@
    }
}

impl PartialEq for SymbolInfo {
    fn eq(&self, other: &SymbolInfo) -> (result: bool) {
        self.name == other.name && self.offset == other.offset && self.size == other.size
    }
}

impl Eq for SymbolInfo {

}

/// `Arc::clone`: another handle on the same symbol.
#[verifier::external_body]
pub(crate) fn share(symbol: &Arc<SymbolInfo>) -> (result: Arc<SymbolInfo>)
    ensures
        result == *symbol,
{
    Arc::clone(symbol)
}

} // verus!
