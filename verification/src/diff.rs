//! Comparing two binaries section by section and attributing differences to symbols.
use vstd::prelude::*;
use crate::dwarf::{SourceLocation, SourceLocationView, DwarfIndex, dwarf_location, dwarf_sections_of, opt_location_view};
use crate::normalize::{NormalizerChain, chain_output};
use crate::ranges::{ByteRange, ByteRangeView, find_differing_ranges, differing_ranges, range_views};
use crate::symbol::{ResolvedSymbol, SymbolTable, symbol_owning};
use crate::bytes::string_views;

verus! {

/// The differences attributed to one symbol.
pub struct SymbolDiff {
    pub symbol: ResolvedSymbol,
    pub source_location: Option<SourceLocation>,
    pub ranges: Vec<ByteRange>,
    pub disasm_left: Option<Vec<String>>,
    pub disasm_right: Option<Vec<String>>,
}

/// The differences of a section that no symbol owns.
pub struct AnonymousDiff {
    pub section: String,
    pub ranges: Vec<ByteRange>,
}

/// Address of the symbol owning address `a`, if any.
pub open spec fn owner_address(t: Seq<ResolvedSymbol>, a: u64) -> Option<u64> {
    match symbol_owning(t, a) {
        Some(s) => Some(s.address),
        None => None,
    }
}

/// The ranges of `rs`, in order, whose owner is `owner` (`None`: no symbol).
pub open spec fn ranges_owned_by(rs: Seq<ByteRangeView>, t: Seq<ResolvedSymbol>, owner: Option<u64>) -> Seq<ByteRangeView>
    decreases rs.len(),
{
    if rs.len() == 0 {
        Seq::empty()
    } else {
        let p = ranges_owned_by(rs.drop_last(), t, owner);
        if owner_address(t, rs.last().offset) == owner {
            p.push(rs.last())
        } else {
            p
        }
    }
}

/// `groups` attributes the ranges `rs` to their owning symbols: one group per
/// owning symbol, each holding, in order, exactly the ranges that symbol owns.
pub open spec fn groups_attribute(groups: Seq<SymbolDiff>, rs: Seq<ByteRangeView>, t: Seq<ResolvedSymbol>) -> bool {
    &&& forall|i: int, j: int|
        0 <= i < j < groups.len() ==> groups[i].symbol.address != groups[j].symbol.address
    &&& forall|i: int|
        0 <= i < groups.len() ==> {
            let g = #[trigger] groups[i];
            &&& range_views(g.ranges@) == ranges_owned_by(rs, t, Some(g.symbol.address))
            &&& g.ranges@.len() > 0
            &&& symbol_owning(t, g.ranges@[0].offset) == Some(g.symbol)
        }
    &&& forall|k: int|
        0 <= k < rs.len() ==> (#[trigger] owner_address(t, rs[k].offset) matches Some(a) ==> exists|i: int|
            0 <= i < groups.len() && groups[i].symbol.address == a)
}

/// A symbol difference without source location or disassembly.
pub open spec fn fresh(d: SymbolDiff) -> bool {
    d.source_location is None && d.disasm_left is None && d.disasm_right is None
}

/// `anon` holds the ranges of `rs` that no symbol owns, as one entry for the
/// section `name`, or nothing when there are none.
pub open spec fn anonymous_attribute(anon: Seq<AnonymousDiff>, rs: Seq<ByteRangeView>, t: Seq<ResolvedSymbol>, name: Seq<char>) -> bool {
    if ranges_owned_by(rs, t, None).len() == 0 {
        anon.len() == 0
    } else {
        &&& anon.len() == 1
        &&& anon[0].section@ == name
        &&& range_views(anon[0].ranges@) == ranges_owned_by(rs, t, None)
    }
}

proof fn lemma_owned_push(rs: Seq<ByteRangeView>, t: Seq<ResolvedSymbol>, x: ByteRangeView, owner: Option<u64>)
    ensures
        ranges_owned_by(rs.push(x), t, owner) == if owner_address(t, x.offset) == owner {
            ranges_owned_by(rs, t, owner).push(x)
        } else {
            ranges_owned_by(rs, t, owner)
        },
{
    assert(rs.push(x).drop_last() == rs);
}

proof fn lemma_owned_none(rs: Seq<ByteRangeView>, t: Seq<ResolvedSymbol>, owner: Option<u64>)
    requires
        forall|k: int| 0 <= k < rs.len() ==> #[trigger] owner_address(t, rs[k].offset) != owner,
    ensures
        ranges_owned_by(rs, t, owner) == Seq::<ByteRangeView>::empty(),
    decreases rs.len(),
{
    if rs.len() > 0 {
        let p = rs.drop_last();
        assert forall|k: int| 0 <= k < p.len() implies #[trigger] owner_address(t, p[k].offset) != owner by {
            assert(p[k] == rs[k]);
        }
        lemma_owned_none(p, t, owner);
        assert(owner_address(t, rs[rs.len() - 1].offset) != owner);
    }
}

proof fn lemma_range_views_push(rs: Seq<ByteRange>, x: ByteRange)
    ensures
        range_views(rs.push(x)) == range_views(rs).push(x@),
{
    assert(range_views(rs.push(x)) =~= range_views(rs).push(x@));
}

/// Compares the normalized images of one section and attributes each
/// differing range to the symbol of `syms` that owns its first byte.
pub fn diff_section(
    name: &str,
    left_data: &[u8],
    left_addr: u64,
    right_data: &[u8],
    normalizer: &NormalizerChain,
    syms: &SymbolTable,
) -> (out: (Vec<SymbolDiff>, Vec<AnonymousDiff>))
    ensures
        ({
            let rs = differing_ranges(
                chain_output(normalizer@, name@, left_data@),
                chain_output(normalizer@, name@, right_data@),
                left_addr,
            );
            &&& groups_attribute(out.0@, rs, syms@)
            &&& anonymous_attribute(out.1@, rs, syms@, name@)
        }),
        forall|i: int| 0 <= i < out.0@.len() ==> #[trigger] fresh(out.0@[i]),
{
    let left_norm = normalizer.apply(name, left_data);
    let right_norm = normalizer.apply(name, right_data);
    let ln: &[u8] = match &left_norm {
        std::borrow::Cow::Borrowed(b) => b,
        std::borrow::Cow::Owned(v) => v.as_slice(),
    };
    let rn: &[u8] = match &right_norm {
        std::borrow::Cow::Borrowed(b) => b,
        std::borrow::Cow::Owned(v) => v.as_slice(),
    };
    let ghost rs_all = differing_ranges(ln@, rn@, left_addr);
    if crate::bytes::bytes_equal(ln, rn) {
        proof {
            crate::ranges::lemma_no_ranges_iff_identical(ln@, rn@, left_addr);
            assert(rs_all.len() == 0);
            assert(ranges_owned_by(rs_all, syms@, None) == Seq::<ByteRangeView>::empty());
        }
        return (Vec::new(), Vec::new());
    }
    let ranges = find_differing_ranges(ln, rn, left_addr);
    let mut groups: Vec<SymbolDiff> = Vec::new();
    let mut anon: Vec<ByteRange> = Vec::new();
    let ghost mut done: Seq<ByteRange> = Seq::empty();
    for r in it: ranges.into_iter()
        invariant
            range_views(it.seq()) == rs_all,
            done == it.seq().take(it.index() as int),
            groups_attribute(groups@, range_views(done), syms@),
            forall|i: int| 0 <= i < groups@.len() ==> #[trigger] fresh(groups@[i]),
            range_views(anon@) == ranges_owned_by(range_views(done), syms@, None),
    {
        let ghost before = done;
        let ghost p = range_views(before);
        let ghost x = r@;
        let ghost old_groups = groups@;
        let ghost old_anon = anon@;
        proof {
            done = done.push(r);
            assert(done == it.seq().take(it.index() + 1));
            lemma_range_views_push(before, r);
            assert(range_views(done) == p.push(x));
            assert forall|w: Option<u64>| #[trigger] ranges_owned_by(p.push(x), syms@, w) == if owner_address(syms@, x.offset) == w {
                ranges_owned_by(p, syms@, w).push(x)
            } else {
                ranges_owned_by(p, syms@, w)
            } by {
                lemma_owned_push(p, syms@, x, w);
            }
        }
        match syms.symbol_at(r.offset) {
            Some(sym) => {
                let ghost a = sym.address;
                assert(owner_address(syms@, x.offset) == Some(a));
                let mut j: usize = 0;
                while j < groups.len() && groups[j].symbol.address != sym.address
                    invariant
                        j <= groups@.len(),
                        forall|q: int| 0 <= q < j ==> groups@[q].symbol.address != sym.address,
                    decreases groups@.len() - j,
                {
                    j = j + 1;
                }
                if j < groups.len() {
                    let ghost gj = groups@[j as int];
                    groups[j].ranges.push(r);
                    proof {
                        assert(groups@.len() == old_groups.len());
                        assert(groups@[j as int].ranges@ == gj.ranges@.push(r));
                        assert(groups@[j as int].symbol == gj.symbol);
                        lemma_range_views_push(gj.ranges@, r);
                        assert forall|i: int| 0 <= i < groups@.len() && i != j implies #[trigger] groups@[i] == old_groups[i] by {}
                        assert forall|i: int| 0 <= i < groups@.len() implies #[trigger] fresh(groups@[i]) by {
                            assert(fresh(old_groups[i]));
                        }
                        assert(groups_attribute(groups@, range_views(done), syms@)) by {
                            let q = range_views(done);
                            assert forall|i: int| 0 <= i < groups@.len() implies {
                                let g = #[trigger] groups@[i];
                                &&& range_views(g.ranges@) == ranges_owned_by(q, syms@, Some(g.symbol.address))
                                &&& g.ranges@.len() > 0
                                &&& symbol_owning(syms@, g.ranges@[0].offset) == Some(g.symbol)
                            } by {
                                let og = old_groups[i];
                                assert(range_views(og.ranges@) == ranges_owned_by(p, syms@, Some(og.symbol.address)));
                                assert(ranges_owned_by(q, syms@, Some(og.symbol.address)) == if owner_address(syms@, x.offset) == Some(og.symbol.address) {
                                    ranges_owned_by(p, syms@, Some(og.symbol.address)).push(x)
                                } else {
                                    ranges_owned_by(p, syms@, Some(og.symbol.address))
                                });
                                if i == j {
                                    assert(groups@[i].ranges@[0] == og.ranges@[0]);
                                } else {
                                    assert(og.symbol.address != a);
                                }
                            }
                            assert forall|k: int| 0 <= k < q.len() implies (#[trigger] owner_address(syms@, q[k].offset) matches Some(b) ==> exists|i: int|
                                0 <= i < groups@.len() && groups@[i].symbol.address == b) by {
                                if k < p.len() {
                                    assert(q[k] == p[k]);
                                    if let Some(b) = owner_address(syms@, p[k].offset) {
                                        let i = choose|i: int| 0 <= i < old_groups.len() && old_groups[i].symbol.address == b;
                                        assert(groups@[i].symbol.address == b);
                                    }
                                } else {
                                    assert(q[k] == x);
                                    assert(groups@[j as int].symbol.address == a);
                                }
                            }
                        }
                        assert(range_views(anon@) == ranges_owned_by(range_views(done), syms@, None));
                    }
                } else {
                    let mut rv: Vec<ByteRange> = Vec::new();
                    rv.push(r);
                    let nsym = sym.clone();
                    let ng = SymbolDiff {
                        symbol: nsym,
                        source_location: None,
                        ranges: rv,
                        disasm_left: None,
                        disasm_right: None,
                    };
                    groups.push(ng);
                    proof {
                        let q = range_views(done);
                        assert(range_views(ng.ranges@) =~= seq![x]);
                        assert forall|k: int| 0 <= k < p.len() implies #[trigger] owner_address(syms@, p[k].offset) != Some(a) by {
                            if owner_address(syms@, p[k].offset) == Some(a) {
                                let i = choose|i: int| 0 <= i < old_groups.len() && old_groups[i].symbol.address == a;
                                assert(old_groups[i].symbol.address != a);
                            }
                        }
                        lemma_owned_none(p, syms@, Some(a));
                        assert(ranges_owned_by(q, syms@, Some(a)) == Seq::<ByteRangeView>::empty().push(x));
                        assert(groups@ == old_groups.push(ng));
                        assert(groups_attribute(groups@, q, syms@)) by {
                            assert forall|i: int| 0 <= i < groups@.len() implies {
                                let g = #[trigger] groups@[i];
                                &&& range_views(g.ranges@) == ranges_owned_by(q, syms@, Some(g.symbol.address))
                                &&& g.ranges@.len() > 0
                                &&& symbol_owning(syms@, g.ranges@[0].offset) == Some(g.symbol)
                            } by {
                                if i < old_groups.len() {
                                    let og = old_groups[i];
                                    assert(groups@[i] == og);
                                    assert(og.symbol.address != a);
                                    assert(ranges_owned_by(q, syms@, Some(og.symbol.address)) == ranges_owned_by(p, syms@, Some(og.symbol.address)));
                                } else {
                                    assert(groups@[i] == ng);
                                    assert(ng.ranges@[0] == r);
                                }
                            }
                            assert forall|k: int| 0 <= k < q.len() implies (#[trigger] owner_address(syms@, q[k].offset) matches Some(b) ==> exists|i: int|
                                0 <= i < groups@.len() && groups@[i].symbol.address == b) by {
                                if k < p.len() {
                                    assert(q[k] == p[k]);
                                    if let Some(b) = owner_address(syms@, p[k].offset) {
                                        let i = choose|i: int| 0 <= i < old_groups.len() && old_groups[i].symbol.address == b;
                                        assert(groups@[i].symbol.address == b);
                                    }
                                } else {
                                    assert(q[k] == x);
                                    assert(groups@[old_groups.len() as int].symbol.address == a);
                                }
                            }
                        }
                        assert(range_views(anon@) == ranges_owned_by(q, syms@, None));
                    }
                }
            },
            None => {
                anon.push(r);
                proof {
                    let q = range_views(done);
                    assert(owner_address(syms@, x.offset) is None);
                    lemma_range_views_push(old_anon, r);
                    assert(groups_attribute(groups@, q, syms@)) by {
                        assert forall|i: int| 0 <= i < groups@.len() implies {
                            let g = #[trigger] groups@[i];
                            &&& range_views(g.ranges@) == ranges_owned_by(q, syms@, Some(g.symbol.address))
                        } by {
                            assert(ranges_owned_by(q, syms@, Some(groups@[i].symbol.address)) == ranges_owned_by(p, syms@, Some(groups@[i].symbol.address)));
                        }
                        assert forall|k: int| 0 <= k < q.len() implies (#[trigger] owner_address(syms@, q[k].offset) matches Some(b) ==> exists|i: int|
                            0 <= i < groups@.len() && groups@[i].symbol.address == b) by {
                            if k < p.len() {
                                assert(q[k] == p[k]);
                            }
                        }
                    }
                }
            },
        }
    }
    proof {
        assert(range_views(done) == rs_all);
    }
    let anon_diffs = if anon.len() == 0 {
        Vec::new()
    } else {
        let mut v: Vec<AnonymousDiff> = Vec::new();
        v.push(AnonymousDiff { section: String::from_str(name), ranges: anon });
        v
    };
    (groups, anon_diffs)
}

} // verus!

verus! {

/// A present, not-ignored section of one side, by name.
pub struct KeptSection<'a> {
    pub name: String,
    pub address: u64,
    pub data: &'a [u8],
}

/// Name to (bytes, address) of the sections `secs` that are not ignored; of
/// several sections with one name the last is kept.
pub open spec fn kept_map(secs: Seq<crate::binary::SectionBytesView>, ignored: Seq<Seq<char>>) -> Map<
    Seq<char>,
    (Seq<u8>, u64),
>
    decreases secs.len(),
{
    if secs.len() == 0 {
        Map::empty()
    } else {
        let m = kept_map(secs.drop_last(), ignored);
        let s = secs.last();
        if ignored.contains(s.name) {
            m
        } else {
            m.insert(s.name, (s.data, s.address))
        }
    }
}

/// `v` lists the entries of `m`, each name once.
pub open spec fn lists_sections(v: Seq<KeptSection>, m: Map<Seq<char>, (Seq<u8>, u64)>) -> bool {
    &&& forall|i: int, j: int| 0 <= i < j < v.len() ==> v[i].name@ != v[j].name@
    &&& forall|k: int|
        0 <= k < v.len() ==> #[trigger] m.contains_key(v[k].name@) && m[v[k].name@] == (
            v[k].data@,
            v[k].address,
        )
    &&& forall|n: Seq<char>| #[trigger] m.contains_key(n) ==> exists|k: int| 0 <= k < v.len() && v[k].name@ == n
}

/// Whether `name` is in `list`.
fn name_listed(list: &Vec<String>, name: &str) -> (b: bool)
    ensures
        b == string_views(list@).contains(name@),
{
    let mut i: usize = 0;
    while i < list.len()
        invariant
            i <= list@.len(),
            forall|k: int| 0 <= k < i ==> list@[k]@ != name@,
        decreases list@.len() - i,
    {
        if crate::bytes::str_equals(list[i].as_str(), name) {
            proof {
                assert(string_views(list@)[i as int] == name@);
            }
            return true;
        }
        i = i + 1;
    }
    proof {
        if string_views(list@).contains(name@) {
            let k = choose|k: int| 0 <= k < string_views(list@).len() && string_views(list@)[k] == name@;
            assert(list@[k]@ == name@);
        }
    }
    false
}

/// Position of the entry named `name` in `v`, or `v.len()`.
fn find_kept(v: &Vec<KeptSection>, name: &str) -> (j: usize)
    ensures
        j <= v@.len(),
        j < v@.len() ==> v@[j as int].name@ == name@,
        j == v@.len() ==> forall|k: int| 0 <= k < v@.len() ==> v@[k].name@ != name@,
{
    let mut j: usize = 0;
    while j < v.len()
        invariant
            j <= v@.len(),
            forall|k: int| 0 <= k < j ==> v@[k].name@ != name@,
        decreases v@.len() - j,
    {
        if crate::bytes::str_equals(v[j].name.as_str(), name) {
            return j;
        }
        j = j + 1;
    }
    j
}

/// The present sections of `secs` that `ignored` does not name, by name.
#[verifier::spinoff_prover]
#[verifier::rlimit(30)]
pub fn kept_sections<'a>(secs: Vec<crate::binary::SectionBytes<'a>>, ignored: &Vec<String>) -> (out: Vec<KeptSection<'a>>)
    ensures
        lists_sections(out@, kept_map(crate::binary::section_bytes_views(secs@), string_views(ignored@))),
{
    let ghost views = crate::binary::section_bytes_views(secs@);
    let ghost ign = string_views(ignored@);
    let mut out: Vec<KeptSection<'a>> = Vec::new();
    let mut i: usize = 0;
    while i < secs.len()
        invariant
            i <= secs@.len(),
            views == crate::binary::section_bytes_views(secs@),
            ign == string_views(ignored@),
            lists_sections(out@, kept_map(views.take(i as int), ign)),
        decreases secs@.len() - i,
    {
        proof {
            assert(views.take(i + 1).drop_last() == views.take(i as int));
            assert(views.take(i + 1).last() == secs@[i as int]@);
        }
        let s = &secs[i];
        let ghost m_next = kept_map(views.take(i + 1), ign);
        proof {
            assert(views.take(i + 1).last() == s@);
            assert(m_next == if ign.contains(s.name@) {
                kept_map(views.take(i as int), ign)
            } else {
                kept_map(views.take(i as int), ign).insert(s.name@, (s.data@, s.address))
            });
        }
        if !name_listed(ignored, s.name.as_str()) {
            let ghost m0 = kept_map(views.take(i as int), ign);
            let ghost m1 = m0.insert(s.name@, (s.data@, s.address));
            let ghost old_out = out@;
            let entry = KeptSection { name: s.name.clone(), address: s.address, data: s.data };
            let j = find_kept(&out, s.name.as_str());
            if j < out.len() {
                out.set(j, entry);
                proof {
                    assert forall|p: int, q: int| 0 <= p < q < out@.len() implies out@[p].name@ != out@[q].name@ by {
                        if p == j {
                            assert(old_out[p].name@ == s.name@);
                        }
                        if q == j {
                            assert(old_out[q].name@ == s.name@);
                        }
                    }
                    assert forall|k: int| 0 <= k < out@.len() implies #[trigger] m1.contains_key(out@[k].name@)
                        && m1[out@[k].name@] == (out@[k].data@, out@[k].address) by {
                        if k != j {
                            assert(out@[k] == old_out[k]);
                            assert(old_out[k].name@ != s.name@);
                        }
                    }
                    assert forall|n: Seq<char>| #[trigger] m1.contains_key(n) implies exists|k: int|
                        0 <= k < out@.len() && out@[k].name@ == n by {
                        if n == s.name@ {
                            assert(out@[j as int].name@ == n);
                        } else {
                            let k = choose|k: int| 0 <= k < old_out.len() && old_out[k].name@ == n;
                            assert(out@[k].name@ == n);
                        }
                    }
                }
            } else {
                out.push(entry);
                proof {
                    assert forall|k: int| 0 <= k < out@.len() implies #[trigger] m1.contains_key(out@[k].name@)
                        && m1[out@[k].name@] == (out@[k].data@, out@[k].address) by {
                        if k < old_out.len() {
                            assert(out@[k] == old_out[k]);
                            assert(old_out[k].name@ != s.name@);
                        } else {
                            assert(out@[k] == entry);
                        }
                    }
                    assert forall|n: Seq<char>| #[trigger] m1.contains_key(n) implies exists|k: int|
                        0 <= k < out@.len() && out@[k].name@ == n by {
                        if n == s.name@ {
                            assert(out@[old_out.len() as int].name@ == n);
                        } else {
                            let k = choose|k: int| 0 <= k < old_out.len() && old_out[k].name@ == n;
                            assert(out@[k].name@ == n);
                        }
                    }
                }
            }
        }
        assert(lists_sections(out@, m_next));
        i = i + 1;
    }
    proof {
        assert(views.take(i as int) == views);
    }
    out
}

} // verus!

verus! {

/// A section both sides keep, with the bytes of each side.
pub struct SharedSection<'a> {
    pub name: String,
    pub left_data: &'a [u8],
    pub left_address: u64,
    pub right_data: &'a [u8],
}

pub ghost struct SharedView {
    pub name: Seq<char>,
    pub left: Seq<u8>,
    pub address: u64,
    pub right: Seq<u8>,
}

impl<'a> View for SharedSection<'a> {
    type V = SharedView;

    open spec fn view(&self) -> SharedView {
        SharedView { name: self.name@, left: self.left_data@, address: self.left_address, right: self.right_data@ }
    }
}

/// The views of a list of shared sections.
pub open spec fn shared_views<'a>(v: Seq<SharedSection<'a>>) -> Seq<SharedView> {
    v.map_values(|s: SharedSection<'a>| s@)
}

/// `v` lists, each once, the names of `a` that `b` does not have.
pub open spec fn lists_only_in(v: Seq<Seq<char>>, a: Map<Seq<char>, (Seq<u8>, u64)>, b: Map<Seq<char>, (Seq<u8>, u64)>) -> bool {
    &&& forall|i: int, j: int| 0 <= i < j < v.len() ==> v[i] != v[j]
    &&& forall|k: int| 0 <= k < v.len() ==> a.contains_key(#[trigger] v[k]) && !b.contains_key(v[k])
    &&& forall|n: Seq<char>| a.contains_key(n) && !b.contains_key(n) ==> #[trigger] v.contains(n)
}

/// `sh` lists, each once, the names both `a` and `b` have, with the bytes of each side.
pub open spec fn lists_shared(sh: Seq<SharedView>, a: Map<Seq<char>, (Seq<u8>, u64)>, b: Map<Seq<char>, (Seq<u8>, u64)>) -> bool {
    &&& forall|i: int, j: int| 0 <= i < j < sh.len() ==> sh[i].name != sh[j].name
    &&& forall|k: int|
        0 <= k < sh.len() ==> {
            let s = #[trigger] sh[k];
            &&& a.contains_key(s.name) && a[s.name] == (s.left, s.address)
            &&& b.contains_key(s.name) && b[s.name].0 == s.right
        }
    &&& forall|n: Seq<char>| #[trigger] a.contains_key(n) && b.contains_key(n) ==> exists|k: int| 0 <= k < sh.len() && sh[k].name == n
}

/// No entry of `v` is named `n`.
pub open spec fn name_absent(v: Seq<KeptSection>, n: Seq<char>) -> bool {
    forall|j: int| 0 <= j < v.len() ==> v[j].name@ != n
}

/// Splits the kept sections of both sides into those only on the left, those
/// only on the right, and those both sides have (in the left side's order).
pub fn pair_sections<'a>(left: &Vec<KeptSection<'a>>, right: &Vec<KeptSection<'a>>) -> (out: (Vec<String>, Vec<String>, Vec<SharedSection<'a>>))
    requires
        forall|i: int, j: int| 0 <= i < j < left@.len() ==> left@[i].name@ != left@[j].name@,
        forall|i: int, j: int| 0 <= i < j < right@.len() ==> right@[i].name@ != right@[j].name@,
    ensures
        forall|a: Map<Seq<char>, (Seq<u8>, u64)>, b: Map<Seq<char>, (Seq<u8>, u64)>|
            #![trigger lists_sections(left@, a), lists_sections(right@, b)]
            lists_sections(left@, a) && lists_sections(right@, b) ==> {
                &&& lists_only_in(string_views(out.0@), a, b)
                &&& lists_only_in(string_views(out.1@), b, a)
                &&& lists_shared(shared_views(out.2@), a, b)
            },
{
    let mut only_left: Vec<String> = Vec::new();
    let mut shared: Vec<SharedSection<'a>> = Vec::new();
    let ghost mut lidx: Seq<int> = Seq::empty();
    let ghost mut sidx: Seq<int> = Seq::empty();
    let mut i: usize = 0;
    while i < left.len()
        invariant
            i <= left@.len(),
            forall|p: int, q: int| 0 <= p < q < left@.len() ==> left@[p].name@ != left@[q].name@,
            forall|p: int, q: int| 0 <= p < q < right@.len() ==> right@[p].name@ != right@[q].name@,
            lidx.len() == only_left@.len(),
            forall|k: int| 0 <= k < lidx.len() ==> 0 <= #[trigger] lidx[k] < i,
            forall|k1: int, k2: int| 0 <= k1 < k2 < lidx.len() ==> lidx[k1] < lidx[k2],
            forall|k: int| 0 <= k < only_left@.len() ==> #[trigger] only_left@[k]@ == left@[lidx[k]].name@,
            forall|k: int| 0 <= k < only_left@.len() ==> forall|j: int| 0 <= j < right@.len() ==> right@[j].name@ != #[trigger] only_left@[k]@,
            forall|p: int| 0 <= p < i ==> name_absent(right@, #[trigger] left@[p].name@)
                ==> exists|k: int| 0 <= k < lidx.len() && lidx[k] == p,
            sidx.len() == shared@.len(),
            forall|k: int| 0 <= k < sidx.len() ==> 0 <= #[trigger] sidx[k] < i,
            forall|k1: int, k2: int| 0 <= k1 < k2 < sidx.len() ==> sidx[k1] < sidx[k2],
            forall|k: int| 0 <= k < shared@.len() ==> {
                let s = #[trigger] shared@[k];
                &&& s.name@ == left@[sidx[k]].name@
                &&& s.left_data@ == left@[sidx[k]].data@
                &&& s.left_address == left@[sidx[k]].address
                &&& exists|j: int| 0 <= j < right@.len() && right@[j].name@ == s.name@ && right@[j].data@ == s.right_data@
            },
            forall|p: int| 0 <= p < i ==> (exists|j: int| 0 <= j < right@.len() && right@[j].name@ == #[trigger] left@[p].name@)
                ==> exists|k: int| 0 <= k < sidx.len() && sidx[k] == p,
        decreases left@.len() - i,
    {
        let l = &left[i];
        let ghost old_lidx = lidx;
        let ghost old_sidx = sidx;
        let j = find_kept(right, l.name.as_str());
        if j < right.len() {
            shared.push(SharedSection {
                name: l.name.clone(),
                left_data: l.data,
                left_address: l.address,
                right_data: right[j].data,
            });
            proof {
                sidx = sidx.push(i as int);
            }
        } else {
            only_left.push(l.name.clone());
            proof {
                lidx = lidx.push(i as int);
            }
        }
        proof {
            assert forall|p: int| 0 <= p < i + 1 && name_absent(right@, #[trigger] left@[p].name@)
                implies exists|k: int| 0 <= k < lidx.len() && lidx[k] == p by {
                if p < i {
                    let k = choose|k: int| 0 <= k < old_lidx.len() && old_lidx[k] == p;
                    assert(lidx[k] == p);
                } else {
                    if j < right@.len() {
                        assert(right@[j as int].name@ == left@[p].name@);
                    } else {
                        assert(lidx[lidx.len() - 1] == p);
                    }
                }
            }
            assert forall|p: int| 0 <= p < i + 1 && (exists|j2: int| 0 <= j2 < right@.len() && right@[j2].name@ == #[trigger] left@[p].name@)
                implies exists|k: int| 0 <= k < sidx.len() && sidx[k] == p by {
                if p < i {
                    let k = choose|k: int| 0 <= k < old_sidx.len() && old_sidx[k] == p;
                    assert(sidx[k] == p);
                } else {
                    if j < right@.len() {
                        assert(sidx[sidx.len() - 1] == p);
                    } else {
                        let j2 = choose|j2: int| 0 <= j2 < right@.len() && right@[j2].name@ == left@[p].name@;
                        assert(right@[j2].name@ != left@[p].name@);
                    }
                }
            }
        }
        i = i + 1;
    }
    let mut only_right: Vec<String> = Vec::new();
    let ghost mut ridx: Seq<int> = Seq::empty();
    let mut i: usize = 0;
    while i < right.len()
        invariant
            i <= right@.len(),
            forall|p: int, q: int| 0 <= p < q < right@.len() ==> right@[p].name@ != right@[q].name@,
            ridx.len() == only_right@.len(),
            forall|k: int| 0 <= k < ridx.len() ==> 0 <= #[trigger] ridx[k] < i,
            forall|k1: int, k2: int| 0 <= k1 < k2 < ridx.len() ==> ridx[k1] < ridx[k2],
            forall|k: int| 0 <= k < only_right@.len() ==> #[trigger] only_right@[k]@ == right@[ridx[k]].name@,
            forall|k: int| 0 <= k < only_right@.len() ==> forall|j: int| 0 <= j < left@.len() ==> left@[j].name@ != #[trigger] only_right@[k]@,
            forall|p: int| 0 <= p < i ==> name_absent(left@, #[trigger] right@[p].name@)
                ==> exists|k: int| 0 <= k < ridx.len() && ridx[k] == p,
        decreases right@.len() - i,
    {
        let r = &right[i];
        let ghost old_ridx = ridx;
        let j = find_kept(left, r.name.as_str());
        if j == left.len() {
            only_right.push(r.name.clone());
            proof {
                ridx = ridx.push(i as int);
            }
        }
        proof {
            assert forall|p: int| 0 <= p < i + 1 && name_absent(left@, #[trigger] right@[p].name@)
                implies exists|k: int| 0 <= k < ridx.len() && ridx[k] == p by {
                if p < i {
                    let k = choose|k: int| 0 <= k < old_ridx.len() && old_ridx[k] == p;
                    assert(ridx[k] == p);
                } else {
                    if j < left@.len() {
                        assert(left@[j as int].name@ == right@[p].name@);
                    } else {
                        assert(ridx[ridx.len() - 1] == p);
                    }
                }
            }
        }
        i = i + 1;
    }
    proof {
        let shv = shared_views(shared@);
        assert forall|a: Map<Seq<char>, (Seq<u8>, u64)>, b: Map<Seq<char>, (Seq<u8>, u64)>|
            #![trigger lists_sections(left@, a), lists_sections(right@, b)]
            lists_sections(left@, a) && lists_sections(right@, b) implies {
                &&& lists_only_in(string_views(only_left@), a, b)
                &&& lists_only_in(string_views(only_right@), b, a)
                &&& lists_shared(shv, a, b)
            } by {
            let ol = string_views(only_left@);
            let or = string_views(only_right@);
            // only on the left
            assert forall|k1: int, k2: int| 0 <= k1 < k2 < ol.len() implies ol[k1] != ol[k2] by {
                assert(ol[k1] == only_left@[k1]@);
                assert(ol[k2] == only_left@[k2]@);
                assert(lidx[k1] < lidx[k2]);
            }
            assert forall|k: int| 0 <= k < ol.len() implies a.contains_key(#[trigger] ol[k]) && !b.contains_key(ol[k]) by {
                assert(ol[k] == only_left@[k]@);
                assert(a.contains_key(left@[lidx[k]].name@));
                if b.contains_key(ol[k]) {
                    let j = choose|j: int| 0 <= j < right@.len() && right@[j].name@ == ol[k];
                    assert(right@[j].name@ != only_left@[k]@);
                }
            }
            assert forall|n: Seq<char>| a.contains_key(n) && !b.contains_key(n) implies #[trigger] ol.contains(n) by {
                let p = choose|p: int| 0 <= p < left@.len() && left@[p].name@ == n;
                assert forall|j: int| 0 <= j < right@.len() implies right@[j].name@ != left@[p].name@ by {
                    assert(b.contains_key(right@[j].name@));
                }
                assert(name_absent(right@, left@[p].name@));
                let k = choose|k: int| 0 <= k < lidx.len() && lidx[k] == p;
                assert(ol[k] == n);
            }
            // only on the right
            assert forall|k1: int, k2: int| 0 <= k1 < k2 < or.len() implies or[k1] != or[k2] by {
                assert(or[k1] == only_right@[k1]@);
                assert(or[k2] == only_right@[k2]@);
                assert(ridx[k1] < ridx[k2]);
            }
            assert forall|k: int| 0 <= k < or.len() implies b.contains_key(#[trigger] or[k]) && !a.contains_key(or[k]) by {
                assert(or[k] == only_right@[k]@);
                assert(b.contains_key(right@[ridx[k]].name@));
                if a.contains_key(or[k]) {
                    let j = choose|j: int| 0 <= j < left@.len() && left@[j].name@ == or[k];
                    assert(left@[j].name@ != only_right@[k]@);
                }
            }
            assert forall|n: Seq<char>| b.contains_key(n) && !a.contains_key(n) implies #[trigger] or.contains(n) by {
                let p = choose|p: int| 0 <= p < right@.len() && right@[p].name@ == n;
                assert forall|j: int| 0 <= j < left@.len() implies left@[j].name@ != right@[p].name@ by {
                    assert(a.contains_key(left@[j].name@));
                }
                assert(name_absent(left@, right@[p].name@));
                let k = choose|k: int| 0 <= k < ridx.len() && ridx[k] == p;
                assert(or[k] == n);
            }
            // shared
            assert forall|k1: int, k2: int| 0 <= k1 < k2 < shv.len() implies shv[k1].name != shv[k2].name by {
                assert(sidx[k1] < sidx[k2]);
            }
            assert forall|k: int| 0 <= k < shv.len() implies {
                let s = #[trigger] shv[k];
                &&& a.contains_key(s.name) && a[s.name] == (s.left, s.address)
                &&& b.contains_key(s.name) && b[s.name].0 == s.right
            } by {
                let s = shared@[k];
                assert(shv[k] == s@);
                let j = choose|j: int| 0 <= j < right@.len() && right@[j].name@ == s.name@ && right@[j].data@ == s.right_data@;
                assert(b.contains_key(right@[j].name@));
                assert(a.contains_key(left@[sidx[k]].name@));
            }
            assert forall|n: Seq<char>| #[trigger] a.contains_key(n) && b.contains_key(n) implies exists|k: int|
                0 <= k < shv.len() && shv[k].name == n by {
                let p = choose|p: int| 0 <= p < left@.len() && left@[p].name@ == n;
                let j = choose|j: int| 0 <= j < right@.len() && right@[j].name@ == n;
                assert(right@[j].name@ == left@[p].name@);
                let k = choose|k: int| 0 <= k < sidx.len() && sidx[k] == p;
                assert(shv[k].name == n);
            }
        }
    }
    (only_left, only_right, shared)
}

} // verus!

verus! {

/// The ranges reported for a shared section.
pub open spec fn section_ranges(s: SharedView, stages: Seq<crate::normalize::Stage>) -> Seq<ByteRangeView> {
    differing_ranges(chain_output(stages, s.name, s.left), chain_output(stages, s.name, s.right), s.address)
}

/// `sd` and `ad` are the symbol and anonymous differences of the sections
/// `sh`, in order: each section contributes a consecutive block of each.
pub open spec fn covers_sections(
    sh: Seq<SharedView>,
    stages: Seq<crate::normalize::Stage>,
    t: Seq<ResolvedSymbol>,
    sd: Seq<SymbolDiff>,
    ad: Seq<AnonymousDiff>,
) -> bool
    decreases sh.len(),
{
    if sh.len() == 0 {
        sd.len() == 0 && ad.len() == 0
    } else {
        exists|i: int, j: int|
            #![trigger sd.take(i), ad.take(j)]
            0 <= i <= sd.len() && 0 <= j <= ad.len() && covers_sections(sh.drop_last(), stages, t, sd.take(i), ad.take(j))
                && groups_attribute(sd.skip(i), section_ranges(sh.last(), stages), t) && anonymous_attribute(
                ad.skip(j),
                section_ranges(sh.last(), stages),
                t,
                sh.last().name,
            )
    }
}

/// What `diff_section` gives for the shared section `s`: the groups and the
/// anonymous ranges of its differing ranges, with nothing filled in yet.
pub open spec fn section_outcome(
    s: SharedView,
    stages: Seq<crate::normalize::Stage>,
    t: Seq<ResolvedSymbol>,
    sd: Seq<SymbolDiff>,
    ad: Seq<AnonymousDiff>,
) -> bool {
    &&& groups_attribute(sd, section_ranges(s, stages), t)
    &&& anonymous_attribute(ad, section_ranges(s, stages), t, s.name)
    &&& forall|i: int| 0 <= i < sd.len() ==> #[trigger] fresh(sd[i])
}

/// The symbol differences of each per-section result.
pub open spec fn symbol_parts(parts: Seq<(Vec<SymbolDiff>, Vec<AnonymousDiff>)>) -> Seq<Seq<SymbolDiff>> {
    Seq::new(parts.len(), |k: int| parts[k].0@)
}

/// The anonymous differences of each per-section result.
pub open spec fn anonymous_parts(parts: Seq<(Vec<SymbolDiff>, Vec<AnonymousDiff>)>) -> Seq<Seq<AnonymousDiff>> {
    Seq::new(parts.len(), |k: int| parts[k].1@)
}

/// Per-section results joined end to end cover their sections: whatever
/// order the sections were diffed in, putting the result of each shared
/// section in its place and concatenating gives what diffing them one after
/// another gives.
pub proof fn lemma_joined_sections_cover(
    sh: Seq<SharedView>,
    stages: Seq<crate::normalize::Stage>,
    t: Seq<ResolvedSymbol>,
    ps: Seq<Seq<SymbolDiff>>,
    pa: Seq<Seq<AnonymousDiff>>,
)
    requires
        ps.len() == sh.len(),
        pa.len() == sh.len(),
        forall|k: int| 0 <= k < sh.len() ==> #[trigger] section_outcome(sh[k], stages, t, ps[k], pa[k]),
    ensures
        covers_sections(sh, stages, t, ps.flatten(), pa.flatten()),
        forall|i: int| 0 <= i < ps.flatten().len() ==> #[trigger] fresh(ps.flatten()[i]),
    decreases sh.len(),
{
    if sh.len() > 0 {
        let n = sh.len() - 1;
        let ps0 = ps.drop_last();
        let pa0 = pa.drop_last();
        assert forall|k: int| 0 <= k < sh.drop_last().len() implies #[trigger] section_outcome(
            sh.drop_last()[k],
            stages,
            t,
            ps0[k],
            pa0[k],
        ) by {
            assert(section_outcome(sh[k], stages, t, ps[k], pa[k]));
        }
        lemma_joined_sections_cover(sh.drop_last(), stages, t, ps0, pa0);
        assert(ps == ps0.push(ps.last()));
        assert(pa == pa0.push(pa.last()));
        ps0.lemma_flatten_push(ps.last());
        pa0.lemma_flatten_push(pa.last());
        let sd = ps.flatten();
        let ad = pa.flatten();
        let i = ps0.flatten().len() as int;
        let j = pa0.flatten().len() as int;
        assert(sd.take(i) == ps0.flatten());
        assert(ad.take(j) == pa0.flatten());
        assert(sd.skip(i) == ps.last());
        assert(ad.skip(j) == pa.last());
        assert(section_outcome(sh[n], stages, t, ps[n], pa[n]));
        assert(covers_sections(sh, stages, t, sd, ad));
        assert forall|k: int| 0 <= k < sd.len() implies #[trigger] fresh(sd[k]) by {
            if k < i {
                assert(sd[k] == ps0.flatten()[k]);
            } else {
                assert(sd[k] == ps[n][k - i]);
            }
        }
    } else {
        assert(ps.flatten() == Seq::<SymbolDiff>::empty());
        assert(pa.flatten() == Seq::<AnonymousDiff>::empty());
    }
}

/// Joins per-section results end to end, in the order given.
pub fn join_sections(parts: Vec<(Vec<SymbolDiff>, Vec<AnonymousDiff>)>) -> (out: (Vec<SymbolDiff>, Vec<AnonymousDiff>))
    ensures
        out.0@ == symbol_parts(parts@).flatten(),
        out.1@ == anonymous_parts(parts@).flatten(),
{
    let ghost p = parts@;
    let mut sd: Vec<SymbolDiff> = Vec::new();
    let mut ad: Vec<AnonymousDiff> = Vec::new();
    for part in it: parts.into_iter()
        invariant
            it.seq() == p,
            sd@ == symbol_parts(p.take(it.index() as int)).flatten(),
            ad@ == anonymous_parts(p.take(it.index() as int)).flatten(),
    {
        let ghost k = it.index() as int;
        let (mut s, mut a) = part;
        proof {
            assert(p[k] == (s, a));
            assert(symbol_parts(p.take(k + 1)) == symbol_parts(p.take(k)).push(s@));
            assert(anonymous_parts(p.take(k + 1)) == anonymous_parts(p.take(k)).push(a@));
            symbol_parts(p.take(k)).lemma_flatten_push(s@);
            anonymous_parts(p.take(k)).lemma_flatten_push(a@);
        }
        sd.append(&mut s);
        ad.append(&mut a);
    }
    proof {
        assert(p.take(p.len() as int) == p);
    }
    (sd, ad)
}

/// Two lists of symbol differences with the same symbols and ranges.
pub open spec fn same_attribution(a: Seq<SymbolDiff>, b: Seq<SymbolDiff>) -> bool {
    a.len() == b.len() && forall|k: int|
        0 <= k < a.len() ==> (#[trigger] a[k]).symbol == b[k].symbol && a[k].ranges == b[k].ranges
}

proof fn lemma_groups_same_attribution(a: Seq<SymbolDiff>, b: Seq<SymbolDiff>, rs: Seq<ByteRangeView>, t: Seq<ResolvedSymbol>)
    requires
        same_attribution(a, b),
        groups_attribute(a, rs, t),
    ensures
        groups_attribute(b, rs, t),
{
    assert forall|i: int, j: int| 0 <= i < j < b.len() implies b[i].symbol.address != b[j].symbol.address by {
        assert(a[i].symbol == b[i].symbol);
        assert(a[j].symbol == b[j].symbol);
    }
    assert forall|i: int| 0 <= i < b.len() implies {
        let g = #[trigger] b[i];
        &&& range_views(g.ranges@) == ranges_owned_by(rs, t, Some(g.symbol.address))
        &&& g.ranges@.len() > 0
        &&& symbol_owning(t, g.ranges@[0].offset) == Some(g.symbol)
    } by {
        assert(a[i].symbol == b[i].symbol && a[i].ranges == b[i].ranges);
    }
    assert forall|k: int| 0 <= k < rs.len() implies (#[trigger] owner_address(t, rs[k].offset) matches Some(x) ==> exists|i: int|
        0 <= i < b.len() && b[i].symbol.address == x) by {
        if let Some(x) = owner_address(t, rs[k].offset) {
            let i = choose|i: int| 0 <= i < a.len() && a[i].symbol.address == x;
            assert(a[i].symbol == b[i].symbol);
        }
    }
}

proof fn lemma_covers_same_attribution(
    sh: Seq<SharedView>,
    stages: Seq<crate::normalize::Stage>,
    t: Seq<ResolvedSymbol>,
    a: Seq<SymbolDiff>,
    b: Seq<SymbolDiff>,
    ad: Seq<AnonymousDiff>,
)
    requires
        same_attribution(a, b),
        covers_sections(sh, stages, t, a, ad),
    ensures
        covers_sections(sh, stages, t, b, ad),
    decreases sh.len(),
{
    if sh.len() > 0 {
        let (i, j) = choose|i: int, j: int|
            #![trigger a.take(i), ad.take(j)]
            0 <= i <= a.len() && 0 <= j <= ad.len() && covers_sections(sh.drop_last(), stages, t, a.take(i), ad.take(j))
                && groups_attribute(a.skip(i), section_ranges(sh.last(), stages), t) && anonymous_attribute(
                ad.skip(j),
                section_ranges(sh.last(), stages),
                t,
                sh.last().name,
            );
        assert(same_attribution(a.take(i), b.take(i))) by {
            assert forall|k: int| 0 <= k < a.take(i).len() implies (#[trigger] a.take(i)[k]).symbol == b.take(i)[k].symbol
                && a.take(i)[k].ranges == b.take(i)[k].ranges by {
                assert(a[k].symbol == b[k].symbol && a[k].ranges == b[k].ranges);
            }
        }
        assert(same_attribution(a.skip(i), b.skip(i))) by {
            assert forall|k: int| 0 <= k < a.skip(i).len() implies (#[trigger] a.skip(i)[k]).symbol == b.skip(i)[k].symbol
                && a.skip(i)[k].ranges == b.skip(i)[k].ranges by {
                assert(a[i + k].symbol == b[i + k].symbol && a[i + k].ranges == b[i + k].ranges);
            }
        }
        lemma_covers_same_attribution(sh.drop_last(), stages, t, a.take(i), b.take(i), ad.take(j));
        lemma_groups_same_attribution(a.skip(i), b.skip(i), section_ranges(sh.last(), stages), t);
        assert(covers_sections(sh.drop_last(), stages, t, b.take(i), ad.take(j)));
    }
}

/// A section's attributed differences are empty exactly when it has no differing range.
proof fn lemma_attribution_empty(g: Seq<SymbolDiff>, a: Seq<AnonymousDiff>, rs: Seq<ByteRangeView>, t: Seq<ResolvedSymbol>, n: Seq<char>)
    requires
        groups_attribute(g, rs, t),
        anonymous_attribute(a, rs, t, n),
    ensures
        (g.len() == 0 && a.len() == 0) <==> rs.len() == 0,
{
    if rs.len() == 0 {
        assert(ranges_owned_by(rs, t, None).len() == 0);
        if g.len() > 0 {
            let g0 = g[0];
            assert(ranges_owned_by(rs, t, Some(g0.symbol.address)).len() == 0);
            assert(range_views(g0.ranges@).len() == g0.ranges@.len());
        }
    } else {
        let x = rs[0];
        if let Some(addr) = owner_address(t, x.offset) {
            assert(owner_address(t, rs[0].offset) == Some(addr));
        } else {
            lemma_owned_contains(rs, t, 0);
        }
    }
}

proof fn lemma_owned_contains(rs: Seq<ByteRangeView>, t: Seq<ResolvedSymbol>, k: int)
    requires
        0 <= k < rs.len(),
    ensures
        ranges_owned_by(rs, t, owner_address(t, rs[k].offset)).len() > 0,
    decreases rs.len(),
{
    if k < rs.len() - 1 {
        lemma_owned_contains(rs.drop_last(), t, k);
        assert(rs.drop_last()[k] == rs[k]);
    }
}

/// Along a covering, no difference is reported exactly when every shared
/// section normalizes to the same bytes on both sides.
pub proof fn lemma_no_differences_iff_normalized_equal(
    sh: Seq<SharedView>,
    stages: Seq<crate::normalize::Stage>,
    t: Seq<ResolvedSymbol>,
    sd: Seq<SymbolDiff>,
    ad: Seq<AnonymousDiff>,
)
    requires
        covers_sections(sh, stages, t, sd, ad),
    ensures
        (sd.len() == 0 && ad.len() == 0) <==> forall|k: int|
            0 <= k < sh.len() ==> chain_output(stages, #[trigger] sh[k].name, sh[k].left) == chain_output(
                stages,
                sh[k].name,
                sh[k].right,
            ),
    decreases sh.len(),
{
    if sh.len() > 0 {
        let (i, j) = choose|i: int, j: int|
            #![trigger sd.take(i), ad.take(j)]
            0 <= i <= sd.len() && 0 <= j <= ad.len() && covers_sections(sh.drop_last(), stages, t, sd.take(i), ad.take(j))
                && groups_attribute(sd.skip(i), section_ranges(sh.last(), stages), t) && anonymous_attribute(
                ad.skip(j),
                section_ranges(sh.last(), stages),
                t,
                sh.last().name,
            );
        let last = sh.last();
        lemma_no_differences_iff_normalized_equal(sh.drop_last(), stages, t, sd.take(i), ad.take(j));
        lemma_attribution_empty(sd.skip(i), ad.skip(j), section_ranges(last, stages), t, last.name);
        crate::ranges::lemma_no_ranges_iff_identical(
            chain_output(stages, last.name, last.left),
            chain_output(stages, last.name, last.right),
            last.address,
        );
        let all_eq = forall|k: int|
            0 <= k < sh.len() ==> chain_output(stages, #[trigger] sh[k].name, sh[k].left) == chain_output(
                stages,
                sh[k].name,
                sh[k].right,
            );
        if all_eq {
            assert forall|k: int| 0 <= k < sh.drop_last().len() implies chain_output(stages, #[trigger] sh.drop_last()[k].name, sh.drop_last()[k].left)
                == chain_output(stages, sh.drop_last()[k].name, sh.drop_last()[k].right) by {
                assert(sh.drop_last()[k] == sh[k]);
            }
            assert(sh[sh.len() - 1] == last);
        }
        if sd.len() == 0 && ad.len() == 0 {
            assert forall|k: int| 0 <= k < sh.len() implies chain_output(stages, #[trigger] sh[k].name, sh[k].left)
                == chain_output(stages, sh[k].name, sh[k].right) by {
                if k < sh.len() - 1 {
                    assert(sh.drop_last()[k] == sh[k]);
                }
            }
        }
    }
}

} // verus!

verus! {

/// The outcome of comparing two binaries.
pub struct DiffResult {
    pub left_path: String,
    pub right_path: String,
    pub identical: bool,
    pub symbol_diffs: Vec<SymbolDiff>,
    pub anonymous_diffs: Vec<AnonymousDiff>,
    pub sections_only_in_left: Vec<String>,
    pub sections_only_in_right: Vec<String>,
}

/// How two binaries are compared.
pub struct DiffConfig {
    pub normalizer: NormalizerChain,
    pub show_disasm: bool,
    pub parallel: bool,
    pub ignored_sections: Vec<String>,
}

/// The comparison engine.
pub struct SemanticDiff;

/// The source location the DWARF of the image `img` held in `data` gives
/// address `a`: none where it gives none or reading it fails.
pub open spec fn symbol_location(img: crate::binary::BinaryImage, data: Seq<u8>, a: u64) -> Option<SourceLocationView> {
    match dwarf_location(dwarf_sections_of(img, data), a) {
        Some(Some(l)) => Some(l),
        _ => None,
    }
}

/// The section a symbol's bytes are looked up in: its own, or `.text`.
pub open spec fn code_section_of(sym: ResolvedSymbol) -> Seq<char> {
    match sym.section {
        Some(s) => s@,
        None => ".text"@,
    }
}

/// The bytes of `sym` in the image `img` held in `data`: found through the
/// first section named as the symbol's section, at the symbol's distance from
/// that section's address (zero when the symbol lies below it).
pub open spec fn symbol_bytes(img: crate::binary::BinaryImage, data: Seq<u8>, sym: ResolvedSymbol) -> Option<Seq<u8>> {
    match crate::binary::first_named(img.layouts(), code_section_of(sym)) {
        None => None,
        Some(k) => {
            let l = img.layouts()[k];
            if !crate::binary::is_present(l, data.len() as int) {
                None
            } else {
                let off = (if sym.address >= l.address { (sym.address - l.address) as u64 } else { 0u64 }) as usize;
                let size = sym.size as usize;
                if off + size <= l.size {
                    Some(data.subrange(l.offset + off, l.offset + off + size))
                } else {
                    None
                }
            }
        },
    }
}

/// The bytes shown for a symbol are those of the section it is defined in
/// (`.text` only for a symbol that names none), at its distance from that
/// section's address: where the first section of that name has bytes in the
/// file that hold the whole symbol, they are that slice of the file, and
/// where no section has that name there are none.
pub proof fn lemma_symbol_bytes_come_from_its_section(
    img: crate::binary::BinaryImage,
    data: Seq<u8>,
    sym: ResolvedSymbol,
    home: Seq<char>,
)
    requires
        match sym.section {
            Some(n) => home == n@,
            None => home == ".text"@,
        },
    ensures
        crate::binary::first_named(img.layouts(), home) is None ==> symbol_bytes(img, data, sym) is None,
        crate::binary::first_named(img.layouts(), home) matches Some(k) ==> {
            let l = img.layouts()[k];
            (crate::binary::is_present(l, data.len() as int) && l.address <= sym.address && (sym.address - l.address)
                + sym.size <= l.size) ==> symbol_bytes(img, data, sym) == Some(
                data.subrange(
                    l.offset + (sym.address - l.address),
                    l.offset + (sym.address - l.address) + sym.size,
                ),
            )
        },
{
    img.lemma_layouts_fit();
    crate::binary::lemma_first_named_in_range(img.layouts(), home);
    assert(code_section_of(sym) == home);
    if let Some(k) = crate::binary::first_named(img.layouts(), home) {
        let l = img.layouts()[k];
        if crate::binary::is_present(l, data.len() as int) && l.address <= sym.address && (sym.address - l.address) + sym.size
            <= l.size {
            let d = (sym.address - l.address) as u64;
            assert(d <= usize::MAX);
            assert((d as usize) == d);
            assert((sym.size as usize) == sym.size);
        }
    }
}

/// The disassembly shown for `sym` from image `img`, if any.
pub open spec fn disassembly_of(
    show: bool,
    machine: crate::binary::Machine,
    img: crate::binary::BinaryImage,
    data: Seq<u8>,
    sym: ResolvedSymbol,
) -> Option<Seq<Seq<char>>> {
    if show && crate::disasm::spec_bitness_for(machine) is Some && symbol_bytes(img, data, sym) is Some {
        Some(crate::disasm::disassembly(
            symbol_bytes(img, data, sym).unwrap(),
            sym.address,
            crate::disasm::spec_bitness_for(machine).unwrap(),
        ))
    } else {
        None
    }
}

pub open spec fn opt_lines_view(v: Option<Vec<String>>) -> Option<Seq<Seq<char>>> {
    match v {
        Some(l) => Some(string_views(l@)),
        None => None,
    }
}

/// The bytes of `sym` in `img`, looked up as `symbol_bytes` says.
fn bytes_of_symbol<'a>(img: &crate::binary::BinaryImage, data: &'a [u8], sym: &ResolvedSymbol) -> (r: Option<&'a [u8]>)
    ensures
        match symbol_bytes(*img, data@, *sym) {
            Some(b) => r matches Some(x) && x@ == b,
            None => r is None,
        },
{
    let name: &str = match &sym.section {
        Some(s) => s.as_str(),
        None => ".text",
    };
    assert(name@ == code_section_of(*sym));
    let found = img.section_data(data, name);
    match found {
        None => None,
        Some((sec, sec_addr, _kind)) => {
            let off: usize = (if sym.address >= sec_addr { sym.address - sec_addr } else { 0 }) as usize;
            let size: usize = sym.size as usize;
            if off > sec.len() || size > sec.len() - off {
                None
            } else {
                let piece = &sec[off..off + size];
                proof {
                    let k = crate::binary::first_named(img.layouts(), code_section_of(*sym)).unwrap();
                    let l = img.layouts()[k];
                    assert(crate::binary::is_present(l, data@.len() as int));
                    assert(sec@ == data@.subrange(l.offset as int, (l.offset + l.size) as int));
                    assert(sec_addr == l.address);
                    assert(piece@ == sec@.subrange(off as int, off + size));
                    assert(sec@.len() == l.size);
                    assert(off + size <= l.size);
                    assert(l.offset + l.size <= data@.len());
                    assert(0 <= l.offset);
                    let want = data@.subrange(l.offset + off, l.offset + off + size);
                    assert(piece@.len() == want.len());
                    assert forall|q: int| 0 <= q < piece@.len() implies piece@[q] == want[q] by {
                        assert(piece@[q] == sec@[off + q]);
                        assert(sec@[off + q] == data@[l.offset + off + q]);
                    }
                    assert(piece@ =~= want);
                }
                Some(piece)
            }
        },
    }
}

/// The sections of two images matched by name.
pub struct SectionPlan<'a> {
    pub only_left: Vec<String>,
    pub only_right: Vec<String>,
    pub shared: Vec<SharedSection<'a>>,
}

/// The map from name to (bytes, address) of the kept sections of `img`.
pub open spec fn kept_of(img: crate::binary::BinaryImage, data: Seq<u8>, ignored: Seq<String>) -> Map<Seq<char>, (Seq<u8>, u64)> {
    kept_map(crate::binary::section_images(img, data), string_views(ignored))
}

/// `p` matches the kept sections of the two images by name: those only on
/// the left, those only on the right, and the shared ones.
pub open spec fn is_plan_of<'a>(
    p: SectionPlan<'a>,
    left: crate::binary::BinaryImage,
    left_data: Seq<u8>,
    right: crate::binary::BinaryImage,
    right_data: Seq<u8>,
    ignored: Seq<String>,
) -> bool {
    let lm = kept_of(left, left_data, ignored);
    let rm = kept_of(right, right_data, ignored);
    &&& lists_only_in(string_views(p.only_left@), lm, rm)
    &&& lists_only_in(string_views(p.only_right@), rm, lm)
    &&& lists_shared(shared_views(p.shared@), lm, rm)
}

/// What comparing the two images with `config` gives: the one-sided
/// section lists, the differences of the shared sections in a section
/// order, the source location and disassembly of each changed symbol, and
/// whether anything differs.
pub open spec fn compare_outcome(
    left: crate::binary::BinaryImage,
    left_data: Seq<u8>,
    right: crate::binary::BinaryImage,
    right_data: Seq<u8>,
    config: DiffConfig,
    res: DiffResult,
) -> bool {
    let lm = kept_of(left, left_data, config.ignored_sections@);
    let rm = kept_of(right, right_data, config.ignored_sections@);
    let stages = config.normalizer@;
    &&& res.left_path@ == left.spec_path()
    &&& res.right_path@ == right.spec_path()
    &&& res.identical == (res.symbol_diffs@.len() == 0 && res.anonymous_diffs@.len() == 0
        && res.sections_only_in_left@.len() == 0 && res.sections_only_in_right@.len() == 0)
    &&& res.identical <==> (lm.dom() == rm.dom() && forall|n: Seq<char>|
        #[trigger] lm.contains_key(n) && rm.contains_key(n) ==> chain_output(stages, n, lm[n].0)
            == chain_output(stages, n, rm[n].0))
    &&& lists_only_in(string_views(res.sections_only_in_left@), lm, rm)
    &&& lists_only_in(string_views(res.sections_only_in_right@), rm, lm)
    &&& exists|sh: Seq<SharedView>|
        lists_shared(sh, lm, rm) && covers_sections(sh, stages, left.spec_symbols()@, res.symbol_diffs@, res.anonymous_diffs@)
    &&& forall|i: int|
        0 <= i < res.symbol_diffs@.len() ==> {
            let d = #[trigger] res.symbol_diffs@[i];
            &&& opt_location_view(d.source_location) == symbol_location(left, left_data, d.symbol.address)
            &&& opt_lines_view(d.disasm_left) == disassembly_of(config.show_disasm, left.spec_machine(), left, left_data, d.symbol)
            &&& opt_lines_view(d.disasm_right) == disassembly_of(config.show_disasm, left.spec_machine(), right, right_data, d.symbol)
        }
}

impl SemanticDiff {
    /// Matches the sections of two images by name: the present sections not
    /// named in `ignored` (of two sections with one name the later counts),
    /// split into those only on the left, only on the right, and shared.
    pub fn plan<'a>(
        left: &crate::binary::BinaryImage,
        left_data: &'a [u8],
        right: &crate::binary::BinaryImage,
        right_data: &'a [u8],
        ignored: &Vec<String>,
    ) -> (p: SectionPlan<'a>)
        ensures
            is_plan_of(p, *left, left_data@, *right, right_data@, ignored@),
    {
        let left_kept = kept_sections(left.present_sections(left_data), ignored);
        let right_kept = kept_sections(right.present_sections(right_data), ignored);
        let (only_left, only_right, shared) = pair_sections(&left_kept, &right_kept);
        SectionPlan { only_left, only_right, shared }
    }

    /// Assembles a result: the given differences (in order), the disassembly
    /// of both sides for every symbol difference when `show_disasm` is set and
    /// the left image is x86, and whether nothing differs.
    pub fn finish<'a>(
        left: &crate::binary::BinaryImage,
        left_data: &'a [u8],
        right: &crate::binary::BinaryImage,
        right_data: &'a [u8],
        show_disasm: bool,
        only_left: Vec<String>,
        only_right: Vec<String>,
        symbol_diffs: Vec<SymbolDiff>,
        anonymous_diffs: Vec<AnonymousDiff>,
    ) -> (res: DiffResult)
        ensures
            res.left_path@ == left.spec_path(),
            res.right_path@ == right.spec_path(),
            res.sections_only_in_left@ == only_left@,
            res.sections_only_in_right@ == only_right@,
            res.anonymous_diffs@ == anonymous_diffs@,
            same_attribution(symbol_diffs@, res.symbol_diffs@),
            res.identical == (symbol_diffs@.len() == 0 && anonymous_diffs@.len() == 0 && only_left@.len() == 0
                && only_right@.len() == 0),
            forall|i: int|
                0 <= i < res.symbol_diffs@.len() ==> {
                    let d = #[trigger] res.symbol_diffs@[i];
                    &&& d.source_location == symbol_diffs@[i].source_location
                    &&& opt_lines_view(d.disasm_left) == if show_disasm {
                        disassembly_of(true, left.spec_machine(), *left, left_data@, d.symbol)
                    } else {
                        opt_lines_view(symbol_diffs@[i].disasm_left)
                    }
                    &&& opt_lines_view(d.disasm_right) == if show_disasm {
                        disassembly_of(true, left.spec_machine(), *right, right_data@, d.symbol)
                    } else {
                        opt_lines_view(symbol_diffs@[i].disasm_right)
                    }
                },
    {
        let mut symbol_diffs = symbol_diffs;
        let ghost before = symbol_diffs@;
        let bitness = if show_disasm {
            crate::disasm::bitness_for(left.machine())
        } else {
            None
        };
        let mut i: usize = 0;
        while i < symbol_diffs.len()
            invariant
                i <= symbol_diffs@.len(),
                symbol_diffs@.len() == before.len(),
                bitness == if show_disasm { crate::disasm::spec_bitness_for(left.spec_machine()) } else { None },
                forall|k: int|
                    0 <= k < symbol_diffs@.len() ==> {
                        let d = #[trigger] symbol_diffs@[k];
                        &&& d.symbol == before[k].symbol
                        &&& d.ranges == before[k].ranges
                        &&& d.source_location == before[k].source_location
                    },
                forall|k: int| i <= k < symbol_diffs@.len() ==> #[trigger] symbol_diffs@[k] == before[k],
                forall|k: int|
                    0 <= k < i ==> {
                        let d = #[trigger] symbol_diffs@[k];
                        &&& opt_lines_view(d.disasm_left) == if show_disasm {
                            disassembly_of(true, left.spec_machine(), *left, left_data@, d.symbol)
                        } else {
                            opt_lines_view(before[k].disasm_left)
                        }
                        &&& opt_lines_view(d.disasm_right) == if show_disasm {
                            disassembly_of(true, left.spec_machine(), *right, right_data@, d.symbol)
                        } else {
                            opt_lines_view(before[k].disasm_right)
                        }
                    },
            decreases symbol_diffs@.len() - i,
        {
            if show_disasm {
                let lb = match bitness {
                    Some(_) => bytes_of_symbol(left, left_data, &symbol_diffs[i].symbol),
                    None => None,
                };
                let rb = match bitness {
                    Some(_) => bytes_of_symbol(right, right_data, &symbol_diffs[i].symbol),
                    None => None,
                };
                let addr = symbol_diffs[i].symbol.address;
                symbol_diffs[i].disasm_left = match (lb, bitness) {
                    (Some(bytes), Some(b)) => Some(crate::disasm::disassemble(bytes, addr, b)),
                    _ => None,
                };
                symbol_diffs[i].disasm_right = match (rb, bitness) {
                    (Some(bytes), Some(b)) => Some(crate::disasm::disassemble(bytes, addr, b)),
                    _ => None,
                };
            }
            i = i + 1;
        }
        let identical = symbol_diffs.len() == 0 && anonymous_diffs.len() == 0 && only_left.len() == 0
            && only_right.len() == 0;
        DiffResult {
            left_path: left.path().to_string(),
            right_path: right.path().to_string(),
            identical,
            symbol_diffs,
            anonymous_diffs,
            sections_only_in_left: only_left,
            sections_only_in_right: only_right,
        }
    }

    /// `diffs` with the source location of each symbol filled in from the
    /// DWARF of the image `img` held in `data` (none where it gives none or
    /// reading it fails); all else is kept.
    pub fn locate(img: &crate::binary::BinaryImage, data: &[u8], diffs: Vec<SymbolDiff>) -> (out: Vec<SymbolDiff>)
        ensures
            out@.len() == diffs@.len(),
            forall|i: int|
                0 <= i < diffs@.len() ==> {
                    let d = #[trigger] out@[i];
                    &&& d.symbol == diffs@[i].symbol
                    &&& d.ranges == diffs@[i].ranges
                    &&& d.disasm_left == diffs@[i].disasm_left
                    &&& d.disasm_right == diffs@[i].disasm_right
                    &&& opt_location_view(d.source_location) == symbol_location(*img, data@, d.symbol.address)
                },
    {
        if diffs.len() == 0 {
            return diffs;
        }
        let ix = match DwarfIndex::load(img, data) {
            Ok(ix) => ix,
            Err(_) => {
                return diffs;
            },
        };
        let ghost d0 = diffs@;
        let mut out: Vec<SymbolDiff> = Vec::new();
        for d in it: diffs.into_iter()
            invariant
                it.seq() == d0,
                ix@ == dwarf_sections_of(*img, data@),
                out@.len() == it.index(),
                forall|i: int|
                    0 <= i < it.index() ==> {
                        let o = #[trigger] out@[i];
                        &&& o.symbol == d0[i].symbol
                        &&& o.ranges == d0[i].ranges
                        &&& o.disasm_left == d0[i].disasm_left
                        &&& o.disasm_right == d0[i].disasm_right
                        &&& opt_location_view(o.source_location) == symbol_location(*img, data@, o.symbol.address)
                    },
        {
            let source_location = match ix.resolve(d.symbol.address) {
                Ok(x) => x,
                Err(_) => None,
            };
            out.push(SymbolDiff {
                symbol: d.symbol,
                source_location,
                ranges: d.ranges,
                disasm_left: d.disasm_left,
                disasm_right: d.disasm_right,
            });
        }
        out
    }

    /// Assembles the result of comparing two images from the plan of their
    /// sections and the result of `diff_section` on each shared section, in
    /// the plan's order (however the sections were diffed): the per-section
    /// results are joined, the changed symbols located and, with
    /// `show_disasm`, disassembled.
    pub fn assemble<'a>(
        left: &crate::binary::BinaryImage,
        left_data: &'a [u8],
        right: &crate::binary::BinaryImage,
        right_data: &'a [u8],
        config: &DiffConfig,
        plan: SectionPlan<'a>,
        parts: Vec<(Vec<SymbolDiff>, Vec<AnonymousDiff>)>,
    ) -> (res: DiffResult)
        requires
            is_plan_of(plan, *left, left_data@, *right, right_data@, config.ignored_sections@),
            parts@.len() == plan.shared@.len(),
            forall|k: int|
                0 <= k < parts@.len() ==> #[trigger] section_outcome(
                    plan.shared@[k]@,
                    config.normalizer@,
                    left.spec_symbols()@,
                    parts@[k].0@,
                    parts@[k].1@,
                ),
        ensures
            compare_outcome(*left, left_data@, *right, right_data@, *config, res),
    {
        let ghost lm = kept_of(*left, left_data@, config.ignored_sections@);
        let ghost rm = kept_of(*right, right_data@, config.ignored_sections@);
        let ghost stages = config.normalizer@;
        let ghost t = left.spec_symbols()@;
        let ghost shv = shared_views(plan.shared@);
        let ghost ps = symbol_parts(parts@);
        let ghost pa = anonymous_parts(parts@);
        proof {
            assert forall|k: int| 0 <= k < shv.len() implies #[trigger] section_outcome(shv[k], stages, t, ps[k], pa[k]) by {
                assert(section_outcome(plan.shared@[k]@, stages, t, parts@[k].0@, parts@[k].1@));
            }
            lemma_joined_sections_cover(shv, stages, t, ps, pa);
        }
        let (symbol_diffs, anonymous_diffs) = join_sections(parts);
        let ghost sd0 = symbol_diffs@;
        proof {
            lemma_no_differences_iff_normalized_equal(shv, stages, t, symbol_diffs@, anonymous_diffs@);
        }
        let symbol_diffs = Self::locate(left, left_data, symbol_diffs);
        let ghost sd1 = symbol_diffs@;
        let res = Self::finish(
            left,
            left_data,
            right,
            right_data,
            config.show_disasm,
            plan.only_left,
            plan.only_right,
            symbol_diffs,
            anonymous_diffs,
        );
        proof {
            assert(same_attribution(sd0, res.symbol_diffs@)) by {
                assert forall|k: int| 0 <= k < sd0.len() implies (#[trigger] sd0[k]).symbol == res.symbol_diffs@[k].symbol
                    && sd0[k].ranges == res.symbol_diffs@[k].ranges by {
                    assert(sd1[k].symbol == res.symbol_diffs@[k].symbol);
                }
            }
            lemma_covers_same_attribution(shv, stages, t, sd0, res.symbol_diffs@, res.anonymous_diffs@);
            assert forall|i: int| 0 <= i < res.symbol_diffs@.len() implies opt_location_view((#[trigger] res.symbol_diffs@[i]).source_location)
                == symbol_location(*left, left_data@, res.symbol_diffs@[i].symbol.address)
                && opt_lines_view(res.symbol_diffs@[i].disasm_left) == disassembly_of(
                    config.show_disasm, left.spec_machine(), *left, left_data@, res.symbol_diffs@[i].symbol)
                && opt_lines_view(res.symbol_diffs@[i].disasm_right) == disassembly_of(
                    config.show_disasm, left.spec_machine(), *right, right_data@, res.symbol_diffs@[i].symbol) by {
                assert(fresh(sd0[i]));
                assert(sd1[i].symbol == res.symbol_diffs@[i].symbol);
            }
            let by_map = forall|n: Seq<char>| #[trigger] lm.contains_key(n) && rm.contains_key(n) ==> chain_output(stages, n, lm[n].0)
                == chain_output(stages, n, rm[n].0);
            let by_seq = forall|k: int|
                0 <= k < shv.len() ==> chain_output(stages, #[trigger] shv[k].name, shv[k].left) == chain_output(
                    stages,
                    shv[k].name,
                    shv[k].right,
                );
            if by_map {
                assert forall|k: int| 0 <= k < shv.len() implies chain_output(stages, #[trigger] shv[k].name, shv[k].left)
                    == chain_output(stages, shv[k].name, shv[k].right) by {
                    let sk = shv[k];
                    assert(lm.contains_key(sk.name) && lm[sk.name] == (sk.left, sk.address));
                    assert(rm.contains_key(sk.name) && rm[sk.name].0 == sk.right);
                }
            }
            if by_seq {
                assert forall|n: Seq<char>| #[trigger] lm.contains_key(n) && rm.contains_key(n) implies chain_output(stages, n, lm[n].0)
                    == chain_output(stages, n, rm[n].0) by {
                    let k = choose|k: int| 0 <= k < shv.len() && shv[k].name == n;
                    let sk = shv[k];
                    assert(lm[sk.name] == (sk.left, sk.address));
                    assert(rm[sk.name].0 == sk.right);
                }
            }
            assert(by_map <==> by_seq);
            let ol = string_views(res.sections_only_in_left@);
            let orr = string_views(res.sections_only_in_right@);
            if lm.dom() == rm.dom() {
                if ol.len() > 0 {
                    assert(lm.contains_key(ol[0]) && !rm.contains_key(ol[0]));
                }
                if orr.len() > 0 {
                    assert(rm.contains_key(orr[0]) && !lm.contains_key(orr[0]));
                }
            }
            if ol.len() == 0 && orr.len() == 0 {
                assert forall|n: Seq<char>| lm.dom().contains(n) <==> rm.dom().contains(n) by {
                    if lm.contains_key(n) && !rm.contains_key(n) {
                        assert(ol.contains(n));
                    }
                    if rm.contains_key(n) && !lm.contains_key(n) {
                        assert(orr.contains(n));
                    }
                }
                assert(lm.dom() =~= rm.dom());
            }
            assert(lists_shared(shv, lm, rm) && covers_sections(shv, stages, t, res.symbol_diffs@, res.anonymous_diffs@));
        }
        res
    }

    /// Compares two binary images.  Sections are matched by name as `plan`
    /// does, each shared section is normalized on both sides and scanned for
    /// differing ranges, and every range is attributed to the left symbol
    /// that owns it.  With `show_disasm`, changed symbols of x86 binaries get
    /// the disassembly of both sides, and every changed symbol gets its source
    /// location from the left image's DWARF.
    pub fn compare<'a>(
        left: &crate::binary::BinaryImage,
        left_data: &'a [u8],
        right: &crate::binary::BinaryImage,
        right_data: &'a [u8],
        config: &DiffConfig,
    ) -> (r: Result<DiffResult, crate::error::BinateError>)
        ensures
            r is Ok,
            r matches Ok(res) ==> compare_outcome(*left, left_data@, *right, right_data@, *config, res),
    {
        let plan = Self::plan(left, left_data, right, right_data, &config.ignored_sections);
        let syms = left.symbol_table();
        let mut parts: Vec<(Vec<SymbolDiff>, Vec<AnonymousDiff>)> = Vec::new();
        let mut i: usize = 0;
        while i < plan.shared.len()
            invariant
                i <= plan.shared@.len(),
                parts@.len() == i,
                *syms == left.spec_symbols(),
                forall|k: int|
                    0 <= k < i ==> #[trigger] section_outcome(
                        plan.shared@[k]@,
                        config.normalizer@,
                        left.spec_symbols()@,
                        parts@[k].0@,
                        parts@[k].1@,
                    ),
            decreases plan.shared@.len() - i,
        {
            let s = &plan.shared[i];
            let part = diff_section(s.name.as_str(), s.left_data, s.left_address, s.right_data, &config.normalizer, syms);
            proof {
                assert(section_ranges(s@, config.normalizer@) == differing_ranges(
                    chain_output(config.normalizer@, s.name@, s.left_data@),
                    chain_output(config.normalizer@, s.name@, s.right_data@),
                    s.left_address,
                ));
            }
            parts.push(part);
            i = i + 1;
        }
        Ok(Self::assemble(left, left_data, right, right_data, config, plan, parts))
    }
}

/// Some entry of `sd` is a difference of the symbol at `a`.
pub open spec fn lists_symbol(sd: Seq<SymbolDiff>, a: u64) -> bool {
    exists|i: int| 0 <= i < sd.len() && (#[trigger] sd[i]).symbol.address == a
}

/// Some entry of `ad` holds unattributed differences of the section `n`.
pub open spec fn lists_anonymous(ad: Seq<AnonymousDiff>, n: Seq<char>) -> bool {
    exists|i: int| 0 <= i < ad.len() && (#[trigger] ad[i]).section@ == n
}

/// Some section of `sh` has a differing range owned by the symbol at `a`.
spec fn owns_change(sh: Seq<SharedView>, stages: Seq<crate::normalize::Stage>, t: Seq<ResolvedSymbol>, a: u64) -> bool {
    exists|k: int, j: int|
        0 <= k < sh.len() && 0 <= j < section_ranges(sh[k], stages).len() && owner_address(
            t,
            (#[trigger] section_ranges(sh[k], stages)[j]).offset,
        ) == Some(a)
}

/// The section of `sh` named `n` has a differing range that no symbol owns.
spec fn has_unowned_change(sh: Seq<SharedView>, stages: Seq<crate::normalize::Stage>, t: Seq<ResolvedSymbol>, n: Seq<char>) -> bool {
    exists|k: int|
        0 <= k < sh.len() && (#[trigger] sh[k]).name == n && ranges_owned_by(section_ranges(sh[k], stages), t, None).len() > 0
}

proof fn lemma_owned_in(rs: Seq<ByteRangeView>, t: Seq<ResolvedSymbol>, o: Option<u64>, m: int)
    requires
        0 <= m < ranges_owned_by(rs, t, o).len(),
    ensures
        exists|j: int| 0 <= j < rs.len() && #[trigger] rs[j] == ranges_owned_by(rs, t, o)[m],
    decreases rs.len(),
{
    let p = ranges_owned_by(rs.drop_last(), t, o);
    if m < p.len() {
        lemma_owned_in(rs.drop_last(), t, o, m);
        let j = choose|j: int| 0 <= j < rs.drop_last().len() && #[trigger] rs.drop_last()[j] == p[m];
        assert(rs[j] == rs.drop_last()[j]);
    } else {
        assert(rs[rs.len() - 1] == ranges_owned_by(rs, t, o)[m]);
    }
}

/// One section's attribution lists a symbol exactly when it owns one of the
/// section's ranges, and the section exactly when a range has no owner.
proof fn lemma_section_lists(g: Seq<SymbolDiff>, ad: Seq<AnonymousDiff>, rs: Seq<ByteRangeView>, t: Seq<ResolvedSymbol>, name: Seq<char>)
    requires
        groups_attribute(g, rs, t),
        anonymous_attribute(ad, rs, t, name),
    ensures
        forall|a: u64|
            #[trigger] lists_symbol(g, a) <==> exists|j: int| 0 <= j < rs.len() && owner_address(t, (#[trigger] rs[j]).offset) == Some(a),
        forall|n: Seq<char>| #[trigger] lists_anonymous(ad, n) <==> (n == name && ranges_owned_by(rs, t, None).len() > 0),
{
    assert forall|a: u64|
        #[trigger] lists_symbol(g, a) <==> exists|j: int| 0 <= j < rs.len() && owner_address(t, (#[trigger] rs[j]).offset) == Some(a) by {
        if lists_symbol(g, a) {
            let i = choose|i: int| 0 <= i < g.len() && (#[trigger] g[i]).symbol.address == a;
            let gi = g[i];
            assert(range_views(gi.ranges@)[0] == gi.ranges@[0]@);
            lemma_owned_in(rs, t, Some(a), 0);
            let j = choose|j: int| 0 <= j < rs.len() && #[trigger] rs[j] == ranges_owned_by(rs, t, Some(a))[0];
            assert(owner_address(t, rs[j].offset) == Some(a));
        }
        if exists|j: int| 0 <= j < rs.len() && owner_address(t, (#[trigger] rs[j]).offset) == Some(a) {
            let j = choose|j: int| 0 <= j < rs.len() && owner_address(t, (#[trigger] rs[j]).offset) == Some(a);
            assert(owner_address(t, rs[j].offset) matches Some(x) && x == a);
            let i = choose|i: int| 0 <= i < g.len() && g[i].symbol.address == a;
            assert(g[i].symbol.address == a);
        }
    }
    assert forall|n: Seq<char>| #[trigger] lists_anonymous(ad, n) <==> (n == name && ranges_owned_by(rs, t, None).len() > 0) by {
        if ranges_owned_by(rs, t, None).len() > 0 && n == name {
            assert(ad[0].section@ == n);
        }
    }
}

/// Along a covering, the symbols listed are those that own a differing range
/// of some section, and the sections listed as unattributed are those with a
/// range that no symbol owns.
#[verifier::spinoff_prover]
#[verifier::rlimit(40)]
proof fn lemma_covered_lists(
    sh: Seq<SharedView>,
    stages: Seq<crate::normalize::Stage>,
    t: Seq<ResolvedSymbol>,
    sd: Seq<SymbolDiff>,
    ad: Seq<AnonymousDiff>,
)
    requires
        covers_sections(sh, stages, t, sd, ad),
    ensures
        forall|a: u64| #[trigger] lists_symbol(sd, a) <==> owns_change(sh, stages, t, a),
        forall|n: Seq<char>| #[trigger] lists_anonymous(ad, n) <==> has_unowned_change(sh, stages, t, n),
    decreases sh.len(),
{
    if sh.len() == 0 {
        assert forall|a: u64| #[trigger] lists_symbol(sd, a) <==> owns_change(sh, stages, t, a) by {}
        assert forall|n: Seq<char>| #[trigger] lists_anonymous(ad, n) <==> has_unowned_change(sh, stages, t, n) by {}
    } else {
        let (i, j) = choose|i: int, j: int|
            #![trigger sd.take(i), ad.take(j)]
            0 <= i <= sd.len() && 0 <= j <= ad.len() && covers_sections(sh.drop_last(), stages, t, sd.take(i), ad.take(j))
                && groups_attribute(sd.skip(i), section_ranges(sh.last(), stages), t) && anonymous_attribute(
                ad.skip(j),
                section_ranges(sh.last(), stages),
                t,
                sh.last().name,
            );
        let sh0 = sh.drop_last();
        let last = sh.last();
        let n0 = sh.len() - 1;
        let rs = section_ranges(last, stages);
        lemma_covered_lists(sh0, stages, t, sd.take(i), ad.take(j));
        lemma_section_lists(sd.skip(i), ad.skip(j), rs, t, last.name);
        assert(sh[n0] == last);
        assert forall|a: u64| #[trigger] lists_symbol(sd, a) <==> owns_change(sh, stages, t, a) by {
            if lists_symbol(sd, a) {
                let x = choose|x: int| 0 <= x < sd.len() && (#[trigger] sd[x]).symbol.address == a;
                if x < i {
                    assert(sd.take(i)[x] == sd[x]);
                    assert(lists_symbol(sd.take(i), a));
                    let (k, y) = choose|k: int, y: int|
                        0 <= k < sh0.len() && 0 <= y < section_ranges(sh0[k], stages).len() && owner_address(
                            t,
                            (#[trigger] section_ranges(sh0[k], stages)[y]).offset,
                        ) == Some(a);
                    assert(sh0[k] == sh[k]);
                    assert(owner_address(t, section_ranges(sh[k], stages)[y].offset) == Some(a));
                } else {
                    assert(sd.skip(i)[x - i] == sd[x]);
                    assert(lists_symbol(sd.skip(i), a));
                    let y = choose|y: int| 0 <= y < rs.len() && owner_address(t, (#[trigger] rs[y]).offset) == Some(a);
                    assert(owner_address(t, section_ranges(sh[n0], stages)[y].offset) == Some(a));
                }
            }
            if owns_change(sh, stages, t, a) {
                let (k, y) = choose|k: int, y: int|
                    0 <= k < sh.len() && 0 <= y < section_ranges(sh[k], stages).len() && owner_address(
                        t,
                        (#[trigger] section_ranges(sh[k], stages)[y]).offset,
                    ) == Some(a);
                if k < n0 {
                    assert(sh0[k] == sh[k]);
                    assert(owner_address(t, section_ranges(sh0[k], stages)[y].offset) == Some(a));
                    assert(owns_change(sh0, stages, t, a));
                    assert(lists_symbol(sd.take(i), a));
                    let x = choose|x: int| 0 <= x < sd.take(i).len() && (#[trigger] sd.take(i)[x]).symbol.address == a;
                    assert(sd[x] == sd.take(i)[x]);
                } else {
                    assert(owner_address(t, rs[y].offset) == Some(a));
                    assert(lists_symbol(sd.skip(i), a));
                    let x = choose|x: int| 0 <= x < sd.skip(i).len() && (#[trigger] sd.skip(i)[x]).symbol.address == a;
                    assert(sd[x + i] == sd.skip(i)[x]);
                }
            }
        }
        assert forall|n: Seq<char>| #[trigger] lists_anonymous(ad, n) <==> has_unowned_change(sh, stages, t, n) by {
            if lists_anonymous(ad, n) {
                let x = choose|x: int| 0 <= x < ad.len() && (#[trigger] ad[x]).section@ == n;
                if x < j {
                    assert(ad.take(j)[x] == ad[x]);
                    assert(lists_anonymous(ad.take(j), n));
                    let k = choose|k: int|
                        0 <= k < sh0.len() && (#[trigger] sh0[k]).name == n && ranges_owned_by(section_ranges(sh0[k], stages), t, None).len() > 0;
                    assert(sh0[k] == sh[k]);
                } else {
                    assert(ad.skip(j)[x - j] == ad[x]);
                    assert(lists_anonymous(ad.skip(j), n));
                }
            }
            if has_unowned_change(sh, stages, t, n) {
                let k = choose|k: int|
                    0 <= k < sh.len() && (#[trigger] sh[k]).name == n && ranges_owned_by(section_ranges(sh[k], stages), t, None).len() > 0;
                if k < n0 {
                    assert(sh0[k] == sh[k]);
                    assert(has_unowned_change(sh0, stages, t, n));
                    assert(lists_anonymous(ad.take(j), n));
                    let x = choose|x: int| 0 <= x < ad.take(j).len() && (#[trigger] ad.take(j)[x]).section@ == n;
                    assert(ad[x] == ad.take(j)[x]);
                } else {
                    assert(lists_anonymous(ad.skip(j), n));
                    let x = choose|x: int| 0 <= x < ad.skip(j).len() && (#[trigger] ad.skip(j)[x]).section@ == n;
                    assert(ad[x + j] == ad.skip(j)[x]);
                }
            }
        }
    }
}

/// The differing ranges of the section `n` that both kept-section maps hold.
pub open spec fn shared_ranges(
    lm: Map<Seq<char>, (Seq<u8>, u64)>,
    rm: Map<Seq<char>, (Seq<u8>, u64)>,
    stages: Seq<crate::normalize::Stage>,
    n: Seq<char>,
) -> Seq<ByteRangeView> {
    differing_ranges(chain_output(stages, n, lm[n].0), chain_output(stages, n, rm[n].0), lm[n].1)
}

/// Along a covering of the shared sections of `lm` and `rm`, the symbols and
/// sections listed depend on the maps alone, not on the sections' order.
proof fn lemma_lists_of_shared(
    lm: Map<Seq<char>, (Seq<u8>, u64)>,
    rm: Map<Seq<char>, (Seq<u8>, u64)>,
    sh: Seq<SharedView>,
    stages: Seq<crate::normalize::Stage>,
    t: Seq<ResolvedSymbol>,
    sd: Seq<SymbolDiff>,
    ad: Seq<AnonymousDiff>,
)
    requires
        lists_shared(sh, lm, rm),
        covers_sections(sh, stages, t, sd, ad),
    ensures
        forall|a: u64|
            #[trigger] lists_symbol(sd, a) <==> exists|n: Seq<char>, y: int|
                lm.contains_key(n) && rm.contains_key(n) && 0 <= y < shared_ranges(lm, rm, stages, n).len() && owner_address(
                    t,
                    (#[trigger] shared_ranges(lm, rm, stages, n)[y]).offset,
                ) == Some(a),
        forall|n: Seq<char>|
            #[trigger] lists_anonymous(ad, n) <==> (lm.contains_key(n) && rm.contains_key(n) && ranges_owned_by(
                shared_ranges(lm, rm, stages, n),
                t,
                None,
            ).len() > 0),
{
    lemma_covered_lists(sh, stages, t, sd, ad);
    assert forall|k: int| 0 <= k < sh.len() implies section_ranges(#[trigger] sh[k], stages) == shared_ranges(lm, rm, stages, sh[k].name) by {
        let s = sh[k];
        assert(lm[s.name] == (s.left, s.address));
        assert(rm[s.name].0 == s.right);
    }
    assert forall|a: u64|
        #[trigger] lists_symbol(sd, a) <==> exists|n: Seq<char>, y: int|
            lm.contains_key(n) && rm.contains_key(n) && 0 <= y < shared_ranges(lm, rm, stages, n).len() && owner_address(
                t,
                (#[trigger] shared_ranges(lm, rm, stages, n)[y]).offset,
            ) == Some(a) by {
        if owns_change(sh, stages, t, a) {
            let (k, y) = choose|k: int, y: int|
                0 <= k < sh.len() && 0 <= y < section_ranges(sh[k], stages).len() && owner_address(
                    t,
                    (#[trigger] section_ranges(sh[k], stages)[y]).offset,
                ) == Some(a);
            let n = sh[k].name;
            assert(section_ranges(sh[k], stages) == shared_ranges(lm, rm, stages, n));
            assert(owner_address(t, shared_ranges(lm, rm, stages, n)[y].offset) == Some(a));
        }
        if exists|n: Seq<char>, y: int|
            lm.contains_key(n) && rm.contains_key(n) && 0 <= y < shared_ranges(lm, rm, stages, n).len() && owner_address(
                t,
                (#[trigger] shared_ranges(lm, rm, stages, n)[y]).offset,
            ) == Some(a) {
            let (n, y) = choose|n: Seq<char>, y: int|
                lm.contains_key(n) && rm.contains_key(n) && 0 <= y < shared_ranges(lm, rm, stages, n).len() && owner_address(
                    t,
                    (#[trigger] shared_ranges(lm, rm, stages, n)[y]).offset,
                ) == Some(a);
            assert(lm.contains_key(n) && rm.contains_key(n));
            let k = choose|k: int| 0 <= k < sh.len() && sh[k].name == n;
            assert(section_ranges(sh[k], stages) == shared_ranges(lm, rm, stages, n));
            assert(owner_address(t, section_ranges(sh[k], stages)[y].offset) == Some(a));
        }
    }
    assert forall|n: Seq<char>|
        #[trigger] lists_anonymous(ad, n) <==> (lm.contains_key(n) && rm.contains_key(n) && ranges_owned_by(
            shared_ranges(lm, rm, stages, n),
            t,
            None,
        ).len() > 0) by {
        if has_unowned_change(sh, stages, t, n) {
            let k = choose|k: int|
                0 <= k < sh.len() && (#[trigger] sh[k]).name == n && ranges_owned_by(section_ranges(sh[k], stages), t, None).len() > 0;
            assert(section_ranges(sh[k], stages) == shared_ranges(lm, rm, stages, n));
        }
        if lm.contains_key(n) && rm.contains_key(n) && ranges_owned_by(shared_ranges(lm, rm, stages, n), t, None).len() > 0 {
            let k = choose|k: int| 0 <= k < sh.len() && sh[k].name == n;
            assert(section_ranges(sh[k], stages) == shared_ranges(lm, rm, stages, n));
            assert(has_unowned_change(sh, stages, t, n));
        }
    }
}

/// Two comparisons of the same images, with configurations that differ at
/// most in `parallel`, agree on everything but the order of their lists:
/// whether the builds are identical, the paths, the sections found on one
/// side only, the symbols with differences, and the sections with
/// differences that no symbol owns.
pub proof fn lemma_comparisons_agree_but_for_order(
    left: crate::binary::BinaryImage,
    left_data: Seq<u8>,
    right: crate::binary::BinaryImage,
    right_data: Seq<u8>,
    c1: DiffConfig,
    c2: DiffConfig,
    r1: DiffResult,
    r2: DiffResult,
)
    requires
        c1.normalizer@ == c2.normalizer@,
        c1.show_disasm == c2.show_disasm,
        c1.ignored_sections@ == c2.ignored_sections@,
        compare_outcome(left, left_data, right, right_data, c1, r1),
        compare_outcome(left, left_data, right, right_data, c2, r2),
    ensures
        r1.identical == r2.identical,
        r1.left_path@ == r2.left_path@,
        r1.right_path@ == r2.right_path@,
        forall|n: Seq<char>|
            #[trigger] string_views(r1.sections_only_in_left@).contains(n) <==> string_views(r2.sections_only_in_left@).contains(n),
        forall|n: Seq<char>|
            #[trigger] string_views(r1.sections_only_in_right@).contains(n) <==> string_views(r2.sections_only_in_right@).contains(n),
        forall|a: u64| #[trigger] lists_symbol(r1.symbol_diffs@, a) <==> lists_symbol(r2.symbol_diffs@, a),
        forall|n: Seq<char>| #[trigger] lists_anonymous(r1.anonymous_diffs@, n) <==> lists_anonymous(r2.anonymous_diffs@, n),
{
    let lm = kept_of(left, left_data, c1.ignored_sections@);
    let rm = kept_of(right, right_data, c1.ignored_sections@);
    let stages = c1.normalizer@;
    let t = left.spec_symbols()@;
    let sh1 = choose|sh: Seq<SharedView>| lists_shared(sh, lm, rm) && covers_sections(sh, stages, t, r1.symbol_diffs@, r1.anonymous_diffs@);
    let sh2 = choose|sh: Seq<SharedView>| lists_shared(sh, lm, rm) && covers_sections(sh, stages, t, r2.symbol_diffs@, r2.anonymous_diffs@);
    lemma_lists_of_shared(lm, rm, sh1, stages, t, r1.symbol_diffs@, r1.anonymous_diffs@);
    lemma_lists_of_shared(lm, rm, sh2, stages, t, r2.symbol_diffs@, r2.anonymous_diffs@);
    let l1 = string_views(r1.sections_only_in_left@);
    let l2 = string_views(r2.sections_only_in_left@);
    assert forall|n: Seq<char>| #[trigger] l1.contains(n) <==> l2.contains(n) by {
        if l1.contains(n) {
            let k = choose|k: int| 0 <= k < l1.len() && l1[k] == n;
            assert(lm.contains_key(l1[k]) && !rm.contains_key(l1[k]));
        }
        if l2.contains(n) {
            let k = choose|k: int| 0 <= k < l2.len() && l2[k] == n;
            assert(lm.contains_key(l2[k]) && !rm.contains_key(l2[k]));
        }
    }
    let o1 = string_views(r1.sections_only_in_right@);
    let o2 = string_views(r2.sections_only_in_right@);
    assert forall|n: Seq<char>| #[trigger] o1.contains(n) <==> o2.contains(n) by {
        if o1.contains(n) {
            let k = choose|k: int| 0 <= k < o1.len() && o1[k] == n;
            assert(rm.contains_key(o1[k]) && !lm.contains_key(o1[k]));
        }
        if o2.contains(n) {
            let k = choose|k: int| 0 <= k < o2.len() && o2[k] == n;
            assert(rm.contains_key(o2[k]) && !lm.contains_key(o2[k]));
        }
    }
}

} // verus!
