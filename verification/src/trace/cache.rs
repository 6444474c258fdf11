//! A table of symbols in which each stands once.
use crate::trace::symbol::{self, SymbolInfo, SymbolModel};
use bloomfilter::Bloom;
use std::sync::Arc;
use vstd::prelude::*;

verus! {

/// The Bloom filter of the `bloomfilter` crate.
#[verifier::external_type_specification]
#[verifier::external_body]
#[verifier::reject_recursive_types(T)]
pub struct ExBloom<T: ?Sized>(bloomfilter::Bloom<T>);

/// The items that a filter takes for recorded: those all of whose bits are set. Besides the items
/// that were recorded there may be others.
pub uninterp spec fn bloom_items(filter: Bloom<(String, u64, u64)>) -> Set<(Seq<char>, u64, u64)>;

/// How many bits a filter was made with, as `Bloom::len` has it.
pub uninterp spec fn bloom_bits(filter: Bloom<(String, u64, u64)>) -> nat;

/// A filter of that many bytes can be made: its bits can be counted, and an allocation can hold them
/// with the header, of 45 bytes.
pub open spec fn bloom_fits(bytes: nat) -> bool {
    &&& 8 * bytes <= u64::MAX
    &&& 45 + bytes <= isize::MAX
}

/// `Bloom::new`: a filter in which nothing is recorded, with a bitmap of the given number of bytes
/// and as many hash functions as suit the expected number of items. How many these are is not said:
/// the crate computes them in floating point. It fails where the system gives no random seed.
#[verifier::external_body]
fn bloom_new(bitmap_size: usize, items_count: usize) -> (result: Result<
    Bloom<(String, u64, u64)>,
    &'static str,
>)
    requires
        0 < bitmap_size,
        bloom_fits(bitmap_size as nat),
        0 < items_count,
    ensures
        result matches Ok(filter) ==> bloom_items(filter) == Set::<(Seq<char>, u64, u64)>::empty()
            && bloom_bits(filter) == 8 * bitmap_size,
{
    Bloom::new(bitmap_size, items_count)
}

/// `Bloom::len`: how many bits the filter has.
#[verifier::external_body]
fn bloom_len(filter: &Bloom<(String, u64, u64)>) -> (result: u64)
    ensures
        result == bloom_bits(*filter),
{
    filter.len()
}

/// `Bloom::check`: whether the filter takes the item for recorded. A filter without bits cannot be
/// asked: the place of an item's bits is found by division.
#[verifier::external_body]
fn bloom_check(filter: &Bloom<(String, u64, u64)>, item: &(String, u64, u64)) -> (result: bool)
    requires
        0 < bloom_bits(*filter),
    ensures
        result == bloom_items(*filter).contains((item.0@, item.1, item.2)),
{
    filter.check(item)
}

/// `Bloom::set`: records an item. The filter takes it and all that it took before for recorded,
/// and has the bits that it had. It may come to take others for recorded too.
#[verifier::external_body]
fn bloom_set(filter: &mut Bloom<(String, u64, u64)>, item: &(String, u64, u64))
    requires
        0 < bloom_bits(*old(filter)),
    ensures
        bloom_items(*old(filter)).insert((item.0@, item.1, item.2)).subset_of(
            bloom_items(*final(filter)),
        ),
        bloom_bits(*final(filter)) == bloom_bits(*old(filter)),
{
    filter.set(item)
}

/// Symbols, each of which has an index.
pub struct SymbolCache {
    symbols: Vec<Arc<SymbolInfo>>,
    bloom_filter: Option<Bloom<(String, u64, u64)>>,
}

/// The models of a list of symbols.
pub open spec fn symbol_models(symbols: Seq<Arc<SymbolInfo>>) -> Seq<SymbolModel> {
    Seq::new(symbols.len(), |i: int| symbols[i]@)
}

/// The first place of a symbol in a table, or the table's length where it is not there.
pub open spec fn symbol_place(table: Seq<SymbolModel>, symbol: SymbolModel) -> int
    decreases table.len(),
{
    if table.len() == 0 || table[0] == symbol {
        0
    } else {
        1 + symbol_place(table.drop_first(), symbol)
    }
}

/// The table with the symbol in it, at the end where it was not there before.
pub open spec fn with_symbol(table: Seq<SymbolModel>, symbol: SymbolModel) -> Seq<SymbolModel> {
    if table.contains(symbol) {
        table
    } else {
        table.push(symbol)
    }
}

/// What `symbol_place` finds.
pub proof fn symbol_place_is_first(table: Seq<SymbolModel>, symbol: SymbolModel)
    ensures
        0 <= symbol_place(table, symbol) <= table.len(),
        forall|i: int| 0 <= i < symbol_place(table, symbol) ==> #[trigger] table[i] != symbol,
        symbol_place(table, symbol) < table.len() ==> table[symbol_place(table, symbol)] == symbol,
        symbol_place(table, symbol) < table.len() <==> table.contains(symbol),
    decreases table.len(),
{
    if table.len() > 0 && table[0] != symbol {
        let rest = table.drop_first();
        symbol_place_is_first(rest, symbol);
        assert forall|i: int| 0 <= i < symbol_place(table, symbol) implies #[trigger] table[i]
            != symbol by {
            if i > 0 {
                assert(rest[i - 1] == table[i]);
            }
        }
        if table.contains(symbol) {
            let i = choose|i: int| 0 <= i < table.len() && table[i] == symbol;
            assert(rest[i - 1] == symbol);
        }
    } else if table.len() > 0 {
        assert(table.contains(table[0]));
    }
}

proof fn symbol_place_known(table: Seq<SymbolModel>, symbol: SymbolModel, i: int)
    requires
        0 <= i <= table.len(),
        forall|j: int| 0 <= j < i ==> #[trigger] table[j] != symbol,
        i < table.len() ==> table[i] == symbol,
    ensures
        symbol_place(table, symbol) == i,
{
    symbol_place_is_first(table, symbol);
    let p = symbol_place(table, symbol);
    if p < i {
        assert(table[p] == symbol);
    } else if p > i {
        assert(table[i] != symbol);
    }
}

/// A symbol is found again at the index that it was given, whatever is added behind it.
pub proof fn symbol_keeps_index(table: Seq<SymbolModel>, symbol: SymbolModel, other: SymbolModel)
    requires
        table.contains(symbol),
    ensures
        with_symbol(table, other).contains(symbol),
        symbol_place(with_symbol(table, other), symbol) == symbol_place(table, symbol),
        with_symbol(table, other)[symbol_place(table, symbol)] == symbol,
{
    let after = with_symbol(table, other);
    let p = symbol_place(table, symbol);
    symbol_place_is_first(table, symbol);
    assert forall|j: int| 0 <= j < p implies #[trigger] after[j] != symbol by {
        assert(after[j] == table[j]);
    }
    assert(after[p] == symbol);
    symbol_place_known(after, symbol, p);
}

/// How many bytes of a filter suit a number of items: about 9.6 bits for each, which give a rate of
/// false positives of one in a hundred.
pub open spec fn filter_bytes(items: usize) -> nat {
    (items * 12 / 10 + 1) as nat
}

impl SymbolCache {
    pub closed spec fn view(&self) -> Seq<SymbolModel> {
        symbol_models(self.symbols@)
    }

    /// The filter has bits and knows all symbols of the table, and none stands there twice.
    pub closed spec fn wf(&self) -> bool {
        &&& self@.no_duplicates()
        &&& self.bloom_filter matches Some(filter) ==> 0 < bloom_bits(filter)
        &&& self.bloom_filter matches Some(filter) ==> forall|i: int|
            0 <= i < self@.len() ==> bloom_items(filter).contains(
                (
                    (#[trigger] self@[i]).name,
                    self@[i].offset,
                    self@[i].size,
                ),
            )
    }

    /// How many bits the filter of the table was made with; none where the table has no filter.
    pub closed spec fn filter_bits(&self) -> Option<nat> {
        match self.bloom_filter {
            Some(filter) => Some(bloom_bits(filter)),
            None => None,
        }
    }

    /// A table has no more symbols than can be counted.
    pub proof fn table_fits(&self)
        ensures
            self@.len() <= usize::MAX,
    {
        assert(self.symbols@.len() == self.symbols.len());
    }

    /// An empty table, laid out for the given number of symbols. It goes without a filter only
    /// where none could be made.
    pub fn new(estimated_items: usize) -> (result: Self)
        requires
            0 < estimated_items,
            bloom_fits(filter_bytes(estimated_items)),
        ensures
            result@ == Seq::<SymbolModel>::empty(),
            result.wf(),
            result.filter_bits() matches Some(bits) ==> bits == 8 * filter_bytes(estimated_items),
    {
        let bytes: u128 = (estimated_items as u128 * 12) / 10 + 1;
        SymbolCache::with_filter(bloom_new(bytes as usize, estimated_items))
    }

    /// An empty table with the filter that was made for it, or without one where that failed or
    /// where the filter has no bits.
    pub fn with_filter(made: Result<Bloom<(String, u64, u64)>, &'static str>) -> (result: Self)
        ensures
            result@ == Seq::<SymbolModel>::empty(),
            result.wf(),
            result.filter_bits() == match made {
                Ok(filter) => if 0 < bloom_bits(filter) {
                    Some(bloom_bits(filter))
                } else {
                    None
                },
                Err(_) => None,
            },
    {
        let bloom_filter = match made {
            Ok(filter) => if bloom_len(&filter) > 0 {
                Some(filter)
            } else {
                None
            },
            Err(_) => None,
        };
        let result = SymbolCache { symbols: Vec::new(), bloom_filter };
        assert(result@ =~= Seq::<SymbolModel>::empty());
        result
    }

    /// The index of the symbol, which is added where it was not there before.
    pub fn get_or_insert(&mut self, symbol: SymbolInfo) -> (result: usize)
        requires
            old(self).wf(),
        ensures
            final(self).wf(),
            final(self)@ == with_symbol(old(self)@, symbol@),
            result == symbol_place(final(self)@, symbol@),
            result < final(self)@.len() <= usize::MAX,
            final(self)@[result as int] == symbol@,
            final(self).filter_bits() == old(self).filter_bits(),
    {
        let ghost table = self@;
        let ghost model = symbol@;
        proof {
            symbol_place_is_first(table, model);
        }
        let item = (symbol.name.clone(), symbol.offset, symbol.size);
        let maybe_known = match &self.bloom_filter {
            Some(filter) => bloom_check(filter, &item),
            None => true,
        };
        if maybe_known {
            let mut i: usize = 0;
            while i < self.symbols.len()
                invariant
                    i <= self.symbols.len(),
                    *self == *old(self),
                    self.wf(),
                    table == self@,
                    model == symbol@,
                    forall|j: int| 0 <= j < i ==> #[trigger] table[j] != model,
                decreases self.symbols.len() - i,
            {
                assert(table[i as int] == self.symbols@[i as int]@);
                if *self.symbols[i] == symbol {
                    proof {
                        symbol_place_known(table, model, i as int);
                        assert(table.contains(table[i as int]));
                    }
                    return i;
                }
                i += 1;
            }
            assert(!table.contains(model));
        } else {
            proof {
                if table.contains(model) {
                    let j = choose|j: int| 0 <= j < table.len() && table[j] == model;
                    assert(self@[j] == model);
                }
            }
        }
        self.symbols.push(Arc::new(symbol));
        match &mut self.bloom_filter {
            Some(filter) => bloom_set(filter, &item),
            None => {},
        }
        assert(self@ =~= table.push(model));
        proof {
            assert forall|j: int| 0 <= j < table.len() implies #[trigger] self@[j] != model by {
                assert(self@[j] == table[j]);
                assert(table.contains(table[j]));
            }
            symbol_place_known(self@, model, table.len() as int);
        }
        self.symbols.len() - 1
    }

    /// A handle on the symbol with the given index.
    pub fn get_ref(&self, index: usize) -> (result: Arc<SymbolInfo>)
        requires
            index < self@.len(),
        ensures
            result@ == self@[index as int],
    {
        symbol::share(&self.symbols[index])
    }

    /// The number of symbols.
    pub fn size(&self) -> (result: usize)
        ensures
            result == self@.len(),
    {
        self.symbols.len()
    }

    /// The symbols, in the order of their indices.
    pub fn into_symbols(self) -> (result: Vec<Arc<SymbolInfo>>)
        ensures
            symbol_models(result@) == self@,
    {
        self.symbols
    }
}

} // verus!
