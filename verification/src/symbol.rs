//! Address-ordered symbol table: which symbol a virtual address belongs to.
use vstd::prelude::*;
use std::collections::BTreeMap;
use vstd::std_specs::btree::spec_keys_iter;
use vstd::std_specs::iter::IteratorSpec;
use vstd::std_specs::cmp::OrdSpec;

verus! {

broadcast use vstd::std_specs::btree::group_btree_axioms, vstd::laws_cmp::group_laws_cmp;

/// A symbol with the address range it occupies.
pub struct ResolvedSymbol {
    pub name: String,
    pub address: u64,
    pub size: u64,
    pub section: Option<String>,
}

/// The mathematical content of a [`ResolvedSymbol`].
pub ghost struct SymbolView {
    pub name: Seq<char>,
    pub address: u64,
    pub size: u64,
    pub section: Option<Seq<char>>,
}

pub open spec fn opt_string_view(s: Option<String>) -> Option<Seq<char>> {
    match s {
        Some(x) => Some(x@),
        None => None,
    }
}

impl View for ResolvedSymbol {
    type V = SymbolView;

    open spec fn view(&self) -> SymbolView {
        SymbolView {
            name: self.name@,
            address: self.address,
            size: self.size,
            section: opt_string_view(self.section),
        }
    }
}

fn clone_opt_string(s: &Option<String>) -> (r: Option<String>)
    ensures
        r == *s,
{
    match s {
        Some(x) => Some(x.clone()),
        None => None,
    }
}

impl Clone for ResolvedSymbol {
    fn clone(&self) -> (r: Self)
        ensures
            r == *self,
    {
        ResolvedSymbol {
            name: self.name.clone(),
            address: self.address,
            size: self.size,
            section: clone_opt_string(&self.section),
        }
    }
}

/// Kind of a symbol as the object reader reports it.
pub enum SymKind {
    Unknown,
    Text,
    Data,
    Section,
    File,
    Label,
    Tls,
}

/// A symbol as the object reader reports it, before the table filters it.
pub struct RawSymbol {
    pub kind: SymKind,
    pub address: u64,
    pub size: u64,
    /// `None` where the reader could not decode the name.
    pub name: Option<String>,
    /// Name of the section the symbol is defined in, where there is one.
    pub section: Option<String>,
}

/// The mathematical content of a [`RawSymbol`].
pub ghost struct RawSymbolView {
    pub kind: SymKind,
    pub address: u64,
    pub size: u64,
    pub name: Option<Seq<char>>,
    pub section: Option<Seq<char>>,
}

impl View for RawSymbol {
    type V = RawSymbolView;

    open spec fn view(&self) -> RawSymbolView {
        RawSymbolView {
            kind: self.kind,
            address: self.address,
            size: self.size,
            name: opt_string_view(self.name),
            section: opt_string_view(self.section),
        }
    }
}

/// The views of a sequence of reported symbols.
pub open spec fn raw_symbol_views(v: Seq<RawSymbol>) -> Seq<RawSymbolView> {
    v.map_values(|r: RawSymbol| r@)
}

/// The table keeps symbols of a known, non-label kind at a nonzero address.
pub open spec fn is_tabled(raw: RawSymbolView) -> bool {
    !(raw.kind is Unknown || raw.kind is Label) && raw.address != 0
}

/// The entry the table makes of a kept symbol.
pub open spec fn entry_of(raw: RawSymbolView) -> SymbolView {
    SymbolView {
        name: match raw.name {
            Some(n) => n,
            None => "<unknown>"@,
        },
        address: raw.address,
        size: raw.size,
        section: raw.section,
    }
}

/// Address to entry, inserting the kept symbols in order (a later symbol at
/// the same address replaces an earlier one).
pub open spec fn symbol_map(raws: Seq<RawSymbolView>) -> Map<u64, SymbolView>
    decreases raws.len(),
{
    if raws.len() == 0 {
        Map::empty()
    } else {
        let m = symbol_map(raws.drop_last());
        if is_tabled(raws.last()) {
            m.insert(raws.last().address, entry_of(raws.last()))
        } else {
            m
        }
    }
}

/// Addresses strictly increase along `s`.
pub open spec fn strictly_sorted(s: Seq<ResolvedSymbol>) -> bool {
    forall|i: int, j: int| 0 <= i < j < s.len() ==> s[i].address < s[j].address
}

/// `s` lists the entries of `m` in address order.
pub open spec fn lists_map(s: Seq<ResolvedSymbol>, m: Map<u64, SymbolView>) -> bool {
    &&& strictly_sorted(s)
    &&& forall|k: int| 0 <= k < s.len() ==> #[trigger] m.contains_key(s[k].address) && m[s[k].address] == s[k]@
    &&& forall|a: u64| #[trigger] m.contains_key(a) ==> exists|k: int| 0 <= k < s.len() && s[k].address == a
}

/// The symbol's range `[address, address + size)` holds `a`; a symbol of
/// size zero holds no address.
pub open spec fn covers(sym: ResolvedSymbol, a: u64) -> bool {
    sym.address <= a < sym.address + sym.size
}

/// Entry `k` holds `a`, and no entry after it does.
pub open spec fn is_owner(s: Seq<ResolvedSymbol>, k: int, a: u64) -> bool {
    &&& 0 <= k < s.len()
    &&& covers(s[k], a)
    &&& forall|j: int| k < j < s.len() ==> !#[trigger] covers(s[j], a)
}

/// The symbol that owns address `a`: of the entries whose range holds `a`,
/// the one at the highest address.
pub open spec fn symbol_owning(s: Seq<ResolvedSymbol>, a: u64) -> Option<ResolvedSymbol> {
    if exists|k: int| #[trigger] is_owner(s, k, a) {
        Some(s[choose|k: int| #[trigger] is_owner(s, k, a)])
    } else {
        None
    }
}

/// No symbol is kept at address 0.
proof fn lemma_symbol_map_nonzero(raws: Seq<RawSymbolView>)
    ensures
        !symbol_map(raws).contains_key(0),
    decreases raws.len(),
{
    if raws.len() > 0 {
        lemma_symbol_map_nonzero(raws.drop_last());
    }
}

/// Symbols ordered by address.
pub struct SymbolTable {
    by_address: Vec<ResolvedSymbol>,
}

impl SymbolTable {
    #[verifier::type_invariant]
    spec fn sorted(self) -> bool {
        &&& strictly_sorted(self.by_address@)
        &&& forall|k: int| 0 <= k < self.by_address@.len() ==> #[trigger] self.by_address@[k].address != 0
    }
}

impl View for SymbolTable {
    type V = Seq<ResolvedSymbol>;

    closed spec fn view(&self) -> Seq<ResolvedSymbol> {
        self.by_address@
    }
}

spec fn precedes<K: Ord>(a: K, b: K) -> bool {
    a.cmp_spec(&b) is Less
}

proof fn lemma_increasing<K: Ord>(s: Seq<K>)
    requires
        vstd::laws_cmp::obeys_cmp::<K>(),
        vstd::std_specs::btree::increasing_seq(s),
    ensures
        forall|i: int, j: int| 0 <= i < j < s.len() ==> #[trigger] precedes(s[i], s[j]),
{
    vstd::std_specs::btree::axiom_increasing_seq_meaning::<K>(s);
}

proof fn lemma_keys_sorted(m: &BTreeMap<u64, ResolvedSymbol>)
    ensures
        forall|i: int, j: int|
            0 <= i < j < spec_keys_iter(m).remaining().len() ==> *spec_keys_iter(m).remaining()[i]
                < *spec_keys_iter(m).remaining()[j],
        spec_keys_iter(m).remaining().unref().to_set() == m@.dom(),
        spec_keys_iter(m).remaining().len() == m@.dom().len(),
{
    vstd::std_specs::btree::axiom_spec_keys_iter(m);
    broadcast use vstd::laws_cmp::lemma_ref_obeys_cmp_spec;
    let s = spec_keys_iter(m).remaining();
    assert(vstd::laws_cmp::obeys_cmp::<u64>());
    assert(vstd::laws_cmp::obeys_cmp::<&u64>());
    lemma_increasing::<&u64>(s);
    assert forall|i: int, j: int| 0 <= i < j < s.len() implies *s[i] < *s[j] by {
        assert(precedes::<&u64>(s[i], s[j]));
    }
}

impl SymbolTable {
    /// The table of the symbols in `raws`, keeping those of a known, non-label
    /// kind at a nonzero address; of several at one address the last is kept.
    pub fn from_raw_symbols(raws: &Vec<RawSymbol>) -> (t: SymbolTable)
        ensures
            lists_map(t@, symbol_map(raw_symbol_views(raws@))),
    {
        let mut map: BTreeMap<u64, ResolvedSymbol> = BTreeMap::new();
        let mut i: usize = 0;
        while i < raws.len()
            invariant
                i <= raws@.len(),
                forall|a: u64| #[trigger] map@.contains_key(a) <==> symbol_map(raw_symbol_views(raws@.take(i as int))).contains_key(a),
                forall|a: u64| #[trigger] map@.contains_key(a) ==> map@[a]@ == symbol_map(raw_symbol_views(raws@.take(i as int)))[a]
                    && map@[a].address == a,
            decreases raws@.len() - i,
        {
            assert(raw_symbol_views(raws@.take(i + 1)).drop_last() =~= raw_symbol_views(raws@.take(i as int)));
            assert(raw_symbol_views(raws@.take(i + 1)).last() == raws@[i as int]@);
            let raw = &raws[i];
            let tabled = match raw.kind {
                SymKind::Unknown | SymKind::Label => false,
                _ => true,
            } && raw.address != 0;
            if tabled {
                let name = match &raw.name {
                    Some(n) => n.clone(),
                    None => String::from_str("<unknown>"),
                };
                let sym = ResolvedSymbol {
                    name,
                    address: raw.address,
                    size: raw.size,
                    section: clone_opt_string(&raw.section),
                };
                assert(sym@ == entry_of(raw@));
                map.insert(raw.address, sym);
            }
            i = i + 1;
        }
        assert(raws@.take(raws@.len() as int) == raws@);
        let ghost keys_seq = spec_keys_iter(&map).remaining();
        let mut out: Vec<ResolvedSymbol> = Vec::new();
        for k in it: map.keys()
            invariant
                it.seq() == keys_seq,
                keys_seq == spec_keys_iter(&map).remaining(),
                forall|a: u64| #[trigger] map@.contains_key(a) ==> map@[a].address == a,
                out@.len() == it.index(),
                forall|j: int| 0 <= j < it.index() ==> #[trigger] out@[j] == map@[*keys_seq[j]],
        {
            proof {
                lemma_keys_sorted(&map);
                assert(keys_seq.unref().to_set().contains(*keys_seq[it.index()]));
            }
            match map.get(k) {
                Some(v) => {
                    out.push(v.clone());
                },
                None => {
                    proof {
                        assert(false);
                    }
                },
            }
        }
        proof {
            lemma_keys_sorted(&map);
            let m = symbol_map(raw_symbol_views(raws@));
            assert(out@.len() == keys_seq.len());
            assert forall|j: int| 0 <= j < out@.len() implies out@[j].address == *keys_seq[j] by {
                assert(keys_seq.unref()[j] == *keys_seq[j]);
                assert(keys_seq.unref().to_set().contains(*keys_seq[j]));
            }
            assert forall|a: u64| #[trigger] m.contains_key(a) implies exists|k: int|
                0 <= k < out@.len() && out@[k].address == a by {
                assert(map@.dom().contains(a));
                assert(keys_seq.unref().to_set().contains(a));
                let k = choose|k: int| 0 <= k < keys_seq.unref().len() && keys_seq.unref()[k] == a;
                assert(out@[k].address == a);
            }
            assert forall|j: int| 0 <= j < out@.len() implies #[trigger] m.contains_key(out@[j].address)
                && m[out@[j].address] == out@[j]@ by {
                assert(keys_seq.unref()[j] == *keys_seq[j]);
                assert(keys_seq.unref().to_set().contains(*keys_seq[j]));
            }
        }
        proof {
            lemma_symbol_map_nonzero(raw_symbol_views(raws@));
            assert forall|k: int| 0 <= k < out@.len() implies #[trigger] out@[k].address != 0 by {
                assert(symbol_map(raw_symbol_views(raws@)).contains_key(out@[k].address));
            }
        }
        SymbolTable { by_address: out }
    }
}

} // verus!

verus! {

impl SymbolTable {
    /// Number of entries whose address is at most `a`.
    fn count_at_or_below(&self, a: u64) -> (n: usize)
        ensures
            n <= self@.len(),
            forall|k: int| 0 <= k < n ==> #[trigger] self@[k].address <= a,
            forall|k: int| n <= k < self@.len() ==> a < #[trigger] self@[k].address,
    {
        proof {
            use_type_invariant(self);
        }
        let mut lo: usize = 0;
        let mut hi: usize = self.by_address.len();
        while lo < hi
            invariant
                lo <= hi <= self.by_address@.len(),
                strictly_sorted(self.by_address@),
                forall|k: int| 0 <= k < lo ==> #[trigger] self.by_address@[k].address <= a,
                forall|k: int| hi <= k < self.by_address@.len() ==> a < #[trigger] self.by_address@[k].address,
            decreases hi - lo,
        {
            let mid = lo + (hi - lo) / 2;
            if self.by_address[mid].address <= a {
                lo = mid + 1;
            } else {
                hi = mid;
            }
        }
        lo
    }

    /// Number of entries whose address is below `a`.
    fn count_below(&self, a: u64) -> (n: usize)
        ensures
            n <= self@.len(),
            forall|k: int| 0 <= k < n ==> #[trigger] self@[k].address < a,
            forall|k: int| n <= k < self@.len() ==> a <= #[trigger] self@[k].address,
    {
        proof {
            use_type_invariant(self);
        }
        let mut lo: usize = 0;
        let mut hi: usize = self.by_address.len();
        while lo < hi
            invariant
                lo <= hi <= self.by_address@.len(),
                strictly_sorted(self.by_address@),
                forall|k: int| 0 <= k < lo ==> #[trigger] self.by_address@[k].address < a,
                forall|k: int| hi <= k < self.by_address@.len() ==> a <= #[trigger] self.by_address@[k].address,
            decreases hi - lo,
        {
            let mid = lo + (hi - lo) / 2;
            if self.by_address[mid].address < a {
                lo = mid + 1;
            } else {
                hi = mid;
            }
        }
        lo
    }

    /// The symbol whose range contains `address`; where several do, the one
    /// at the highest address.
    ///
    /// A binary search finds the last symbol at or below `address`, and the
    /// walk down from there stops at the first symbol that covers it.  When
    /// that nearest symbol covers `address`, as it does for every address
    /// inside a function of a table without nested symbols, the lookup takes
    /// O(log n) steps; when it does not, the walk may visit every lower
    /// symbol, O(n) steps in all.
    pub fn symbol_at(&self, address: u64) -> (r: Option<&ResolvedSymbol>)
        ensures
            match r {
                Some(s) => exists|k: int| is_owner(self@, k, address) && *s == self@[k],
                None => forall|k: int| 0 <= k < self@.len() ==> !#[trigger] covers(self@[k], address),
            },
            match r {
                Some(s) => symbol_owning(self@, address) == Some(*s),
                None => symbol_owning(self@, address) is None,
            },
    {
        proof {
            use_type_invariant(self);
        }
        let n = self.count_at_or_below(address);
        let mut k: usize = n;
        while k > 0
            invariant
                k <= n <= self@.len(),
                forall|j: int| n <= j < self@.len() ==> address < #[trigger] self@[j].address,
                forall|j: int| k <= j < self@.len() ==> !#[trigger] covers(self@[j], address),
                forall|j: int| 0 <= j < n ==> #[trigger] self@[j].address <= address,
            decreases k,
        {
            let sym = &self.by_address[k - 1];
            if address - sym.address < sym.size {
                proof {
                    assert(is_owner(self@, k - 1, address));
                    assert forall|j: int| #[trigger] is_owner(self@, j, address) implies j == k - 1 by {
                        if j < k - 1 {
                            assert(covers(self@[k - 1], address));
                        }
                    }
                }
                return Some(sym);
            }
            k = k - 1;
        }
        None
    }

    /// The symbols whose address lies in `range`, in address order.
    pub fn symbols_in(&self, range: std::ops::Range<u64>) -> (out: Vec<&ResolvedSymbol>)
        requires
            range.start <= range.end,
        ensures
            forall|i: int| 0 <= i < out@.len() ==> range.start <= #[trigger] out@[i].address < range.end,
            forall|i: int, j: int| 0 <= i < j < out@.len() ==> out@[i].address < out@[j].address,
            forall|k: int|
                0 <= k < self@.len() && range.start <= #[trigger] self@[k].address < range.end
                    ==> out@.contains(&self@[k]),
            forall|i: int| 0 <= i < out@.len() ==> self@.contains(*#[trigger] out@[i]),
    {
        proof {
            use_type_invariant(self);
        }
        let lo = self.count_below(range.start);
        let mut out: Vec<&ResolvedSymbol> = Vec::new();
        let mut i: usize = lo;
        while i < self.by_address.len() && self.by_address[i].address < range.end
            invariant
                lo <= i <= self.by_address@.len(),
                strictly_sorted(self.by_address@),
                forall|k: int| 0 <= k < lo ==> #[trigger] self.by_address@[k].address < range.start,
                forall|k: int| lo <= k < self.by_address@.len() ==> range.start <= #[trigger] self.by_address@[k].address,
                forall|k: int| lo <= k < i ==> #[trigger] self.by_address@[k].address < range.end,
                out@.len() == i - lo,
                forall|j: int| 0 <= j < out@.len() ==> #[trigger] out@[j] == self.by_address@[lo + j],
            decreases self.by_address@.len() - i,
        {
            out.push(&self.by_address[i]);
            i = i + 1;
        }
        proof {
            assert forall|k: int|
                0 <= k < self@.len() && range.start <= #[trigger] self@[k].address < range.end implies out@.contains(
                &self@[k],
            ) by {
                if k >= i {
                    assert(i < self.by_address@.len());
                    assert(self.by_address@[i as int].address >= range.end);
                    if k > i {
                        assert(self.by_address@[i as int].address < self.by_address@[k].address);
                    }
                }
                assert(out@[k - lo] == self@[k]);
            }
            assert forall|i2: int| 0 <= i2 < out@.len() implies self@.contains(*#[trigger] out@[i2]) by {
                assert(self@[lo + i2] == out@[i2]);
            }
        }
        out
    }

    /// All symbols in address order; none lies at address 0.
    pub fn iter(&self) -> (out: Vec<&ResolvedSymbol>)
        ensures
            strictly_sorted(self@),
            forall|k: int| 0 <= k < out@.len() ==> #[trigger] out@[k].address != 0,
            out@.len() == self@.len(),
            forall|k: int| 0 <= k < self@.len() ==> *#[trigger] out@[k] == self@[k],
    {
        proof {
            use_type_invariant(self);
        }
        let mut out: Vec<&ResolvedSymbol> = Vec::new();
        let mut i: usize = 0;
        while i < self.by_address.len()
            invariant
                i <= self.by_address@.len(),
                out@.len() == i,
                forall|k: int| 0 <= k < i ==> *#[trigger] out@[k] == self.by_address@[k],
            decreases self.by_address@.len() - i,
        {
            out.push(&self.by_address[i]);
            i = i + 1;
        }
        out
    }
}

} // verus!
