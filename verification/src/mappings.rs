//! Executable mappings of a process and the lookup of the mapping that
//! holds an address.

use vstd::prelude::*;
use crate::intern::{InternedStrings, distinct_strings};
use crate::symbols::{ExportSymbol, ExportSymbolView, ExportSymbolReader, ReaderCall, SymbolEntry};

verus! {

/// Addresses from here on belong to the kernel.
pub const KERNEL_START: u64 = 0xFFFF800000000000;

/// How frames of code in a mapping are unwound.
#[derive(Clone, Copy, PartialEq, Eq, Structural, Debug)]
pub enum UnwindType {
    Prolog,
    DWARF,
}

/// Device and inode of a mapped file.
#[derive(Clone, Copy, PartialEq, Eq, Structural, Debug)]
pub struct ExportDevNode {
    dev: u64,
    ino: u64,
}

impl ExportDevNode {
    pub closed spec fn spec_dev(&self) -> u64 {
        self.dev
    }

    pub closed spec fn spec_ino(&self) -> u64 {
        self.ino
    }

    pub fn new(dev: u64, ino: u64) -> (n: Self)
        ensures
            n.spec_dev() == dev,
            n.spec_ino() == ino,
    {
        ExportDevNode { dev, ino }
    }

    pub fn dev(&self) -> (r: u64)
        ensures
            r == self.spec_dev(),
    {
        self.dev
    }

    pub fn ino(&self) -> (r: u64)
        ensures
            r == self.spec_ino(),
    {
        self.ino
    }
}

/// The key that identifies the module of a mapping for unwinding.
#[derive(Clone, Copy, PartialEq, Eq, Structural, Debug)]
pub struct ModuleKey {
    pub dev: u64,
    pub ino: u64,
}

/// A mapping of code into a process's address space.
pub struct ExportMapping {
    time: u64,
    filename_id: usize,
    start: u64,
    end: u64,
    file_offset: u64,
    va_offset: u64,
    anon: bool,
    id: usize,
    unwind_type: UnwindType,
    node: Option<ExportDevNode>,
    symbols: Vec<ExportSymbol>,
}

/// Mathematical form of an `ExportMapping`.
pub struct MappingView {
    pub time: u64,
    pub filename_id: usize,
    pub start: u64,
    pub end: u64,
    pub file_offset: u64,
    pub va_offset: u64,
    pub anon: bool,
    pub id: usize,
    pub unwind_type: UnwindType,
    pub node: Option<ExportDevNode>,
    pub symbols: Seq<ExportSymbolView>,
}

/// The views of a sequence of symbols.
pub open spec fn symbols_view(v: Seq<ExportSymbol>) -> Seq<ExportSymbolView> {
    v.map_values(|s: ExportSymbol| s@)
}

impl View for ExportMapping {
    type V = MappingView;

    closed spec fn view(&self) -> MappingView {
        MappingView {
            time: self.time,
            filename_id: self.filename_id,
            start: self.start,
            end: self.end,
            file_offset: self.file_offset,
            va_offset: self.va_offset,
            anon: self.anon,
            id: self.id,
            unwind_type: self.unwind_type,
            node: self.node,
            symbols: symbols_view(self.symbols@),
        }
    }
}

impl Clone for ExportMapping {
    fn clone(&self) -> (r: Self)
        ensures
            r@ == self@,
    {
        let symbols = self.symbols.clone();
        assert(symbols_view(symbols@) =~= symbols_view(self.symbols@));
        ExportMapping {
            time: self.time,
            filename_id: self.filename_id,
            start: self.start,
            end: self.end,
            file_offset: self.file_offset,
            va_offset: self.va_offset,
            anon: self.anon,
            id: self.id,
            unwind_type: self.unwind_type,
            node: self.node,
            symbols,
        }
    }
}

/// The virtual-address range of the file range `[file_start, file_end]`
/// within mapping `m`: anonymous and kernel mappings take the range as it
/// is; otherwise the range is clipped to the part of the file the mapping
/// covers and moved to the mapping's addresses, or is `None` when it lies
/// outside that part.
pub open spec fn spec_file_to_va(m: MappingView, file_start: u64, file_end: u64) -> Option<(u64, u64)> {
    let map_file_start = m.file_offset as int;
    let map_file_end = m.file_offset + (m.end - m.start);
    if m.anon || m.start >= KERNEL_START {
        Some((file_start, file_end))
    } else if file_end < map_file_start || file_start > map_file_end {
        None
    } else {
        let fs = if file_start < map_file_start { map_file_start } else { file_start as int };
        let fe = if file_end > map_file_end { map_file_end } else { file_end as int };
        Some(((fs - map_file_start + m.start) as u64, (fs - map_file_start + m.start + (fe - fs)) as u64))
    }
}

/// The mapping's file span fits in 64 bits.
pub open spec fn mapping_ok(m: MappingView) -> bool {
    m.start <= m.end && m.file_offset + (m.end - m.start) <= u64::MAX
}

/// A file range that `file_to_va_range` accepts for `m`: any range of an
/// anonymous or kernel mapping, any range that lies wholly outside the
/// mapping's file range, and any other range whose start is not past its
/// end.
pub open spec fn range_ok(m: MappingView, file_start: u64, file_end: u64) -> bool {
    ||| m.anon
    ||| m.start >= KERNEL_START
    ||| file_start <= file_end
    ||| file_end < m.file_offset
    ||| file_start > m.file_offset + (m.end - m.start)
}

/// Some IP equals `start`, or lies in `[start, end]`.
pub open spec fn ips_hit(ips: Seq<u64>, start: u64, end: u64) -> bool {
    ips.contains(start) || exists|k: int| 0 <= k < ips.len() && start <= #[trigger] ips[k] <= end
}

/// The name a symbol is recorded under: its demangled name when it has one.
pub open spec fn chosen_name(e: SymbolEntry) -> Seq<char> {
    match e.demangled {
        Some(d) => d,
        None => e.name,
    }
}

/// The symbols of `entries` whose address range in `m` holds a sampled IP,
/// with that range and their chosen name, in order.
pub open spec fn matched_symbols(m: MappingView, entries: Seq<SymbolEntry>, ips: Seq<u64>) -> Seq<(u64, u64, Seq<char>)>
    decreases entries.len(),
{
    if entries.len() == 0 {
        Seq::empty()
    } else {
        let prev = matched_symbols(m, entries.drop_last(), ips);
        let e = entries.last();
        match spec_file_to_va(m, e.start, e.end) {
            Some((s, t)) => if ips_hit(ips, s, t) {
                prev.push((s, t, chosen_name(e)))
            } else {
                prev
            },
            None => prev,
        }
    }
}

/// Whether matching adds symbol `e` of mapping `m` for the sampled `ips`.
pub open spec fn symbol_added(m: MappingView, e: SymbolEntry, ips: Seq<u64>) -> bool {
    match spec_file_to_va(m, e.start, e.end) {
        Some((s, t)) => ips_hit(ips, s, t),
        None => false,
    }
}

/// The calls that matching makes on the reader while it walks `entries`:
/// a `next` for each symbol, followed by a `demangle` when the symbol is
/// added.
pub open spec fn match_calls(m: MappingView, entries: Seq<SymbolEntry>, ips: Seq<u64>) -> Seq<ReaderCall>
    decreases entries.len(),
{
    if entries.len() == 0 {
        Seq::empty()
    } else {
        match_calls(m, entries.drop_last(), ips).push(ReaderCall::Next) + if symbol_added(m, entries.last(), ips) {
            seq![ReaderCall::Demangle]
        } else {
            Seq::empty()
        }
    }
}

/// The table after interning `names` in order.
pub open spec fn intern_all(table: Seq<Seq<char>>, names: Seq<Seq<char>>) -> Seq<Seq<char>>
    decreases names.len(),
{
    if names.len() == 0 {
        table
    } else {
        let t = intern_all(table, names.drop_last());
        if t.contains(names.last()) {
            t
        } else {
            t.push(names.last())
        }
    }
}

/// The position of `name` in `table`.
pub open spec fn index_of(table: Seq<Seq<char>>, name: Seq<char>) -> int {
    choose|i: int| 0 <= i < table.len() && table[i] == name
}

/// The symbols that `add_matching_symbols` appends, given the final table.
pub open spec fn added_symbols(matched: Seq<(u64, u64, Seq<char>)>, table: Seq<Seq<char>>) -> Seq<ExportSymbolView> {
    matched.map_values(|a: (u64, u64, Seq<char>)| ExportSymbolView { name_id: index_of(table, a.2) as usize, start: a.0, end: a.1 })
}

/// The number of symbols of `entries` that matching adds.
pub open spec fn added_count(m: MappingView, entries: Seq<SymbolEntry>, ips: Seq<u64>) -> nat
    decreases entries.len(),
{
    if entries.len() == 0 {
        0
    } else {
        added_count(m, entries.drop_last(), ips) + if symbol_added(m, entries.last(), ips) { 1nat } else { 0nat }
    }
}

proof fn lemma_added_count_below(m: MappingView, entries: Seq<SymbolEntry>, ips: Seq<u64>, i: int)
    requires
        0 <= i < entries.len(),
        symbol_added(m, entries[i], ips),
    ensures
        added_count(m, entries.take(i), ips) < added_count(m, entries, ips),
    decreases entries.len(),
{
    if i < entries.len() - 1 {
        let dl = entries.drop_last();
        assert(dl[i] == entries[i]);
        lemma_added_count_below(m, dl, ips, i);
        assert(dl.take(i) =~= entries.take(i));
    } else {
        assert(entries.take(i) =~= entries.drop_last());
    }
}

proof fn lemma_matched_symbols_follow_entries(m: MappingView, entries: Seq<SymbolEntry>, ips: Seq<u64>)
    ensures
        matched_symbols(m, entries, ips).len() == added_count(m, entries, ips),
        forall|i: int|
            0 <= i < entries.len() && symbol_added(m, entries[i], ips) ==> {
                let va = spec_file_to_va(m, entries[i].start, entries[i].end)->Some_0;
                #[trigger] matched_symbols(m, entries, ips)[added_count(m, entries.take(i), ips) as int] == (
                    va.0,
                    va.1,
                    match entries[i].demangled {
                        Some(d) => d,
                        None => entries[i].name,
                    },
                )
            },
    decreases entries.len(),
{
    if entries.len() > 0 {
        let dl = entries.drop_last();
        lemma_matched_symbols_follow_entries(m, dl, ips);
        let n = entries.len() - 1;
        assert(entries.take(n) =~= dl);
        assert forall|i: int|
            0 <= i < entries.len() && symbol_added(m, entries[i], ips) implies {
                let va = spec_file_to_va(m, entries[i].start, entries[i].end)->Some_0;
                #[trigger] matched_symbols(m, entries, ips)[added_count(m, entries.take(i), ips) as int] == (
                    va.0,
                    va.1,
                    match entries[i].demangled {
                        Some(d) => d,
                        None => entries[i].name,
                    },
                )
            } by {
            if i < n {
                assert(dl[i] == entries[i]);
                assert(dl.take(i) =~= entries.take(i));
                lemma_added_count_below(m, dl, ips, i);
                assert(matched_symbols(m, dl, ips)[added_count(m, dl.take(i), ips) as int] == matched_symbols(
                    m,
                    entries,
                    ips,
                )[added_count(m, entries.take(i), ips) as int]);
            }
        }
    }
}

proof fn lemma_intern_all_holds(table: Seq<Seq<char>>, names: Seq<Seq<char>>)
    ensures
        forall|k: int| 0 <= k < names.len() ==> intern_all(table, names).contains(#[trigger] names[k]),
        forall|j: int| 0 <= j < table.len() ==> intern_all(table, names).contains(#[trigger] table[j]),
    decreases names.len(),
{
    if names.len() > 0 {
        let dl = names.drop_last();
        lemma_intern_all_holds(table, dl);
        let t = intern_all(table, dl);
        assert forall|k: int| 0 <= k < names.len() implies intern_all(table, names).contains(#[trigger] names[k]) by {
            if k < names.len() - 1 {
                assert(dl[k] == names[k]);
                assert(t.contains(dl[k]));
                let i = choose|i: int| 0 <= i < t.len() && t[i] == dl[k];
                assert(intern_all(table, names)[i] == t[i]);
            } else if t.contains(names.last()) {
            } else {
                assert(intern_all(table, names)[t.len() as int] == names.last());
            }
        }
        assert forall|j: int| 0 <= j < table.len() implies intern_all(table, names).contains(#[trigger] table[j]) by {
            assert(t.contains(table[j]));
            let i = choose|i: int| 0 <= i < t.len() && t[i] == table[j];
            assert(intern_all(table, names)[i] == t[i]);
        }
    }
}

/// What matching adds for the symbols of a reader, in terms of the
/// reader's entries: one symbol for each entry whose range in the mapping
/// holds a sampled IP, in the reader's order, with that range, and named by
/// the entry's demangled name when it has one and by its raw name only when
/// it has none; the string table then holds that name, and the symbol's
/// name id is its place in the table.
pub proof fn lemma_added_symbols_follow_entries(
    m: MappingView,
    entries: Seq<SymbolEntry>,
    ips: Seq<u64>,
    table: Seq<Seq<char>>,
)
    ensures
        ({
            let added = matched_symbols(m, entries, ips);
            let t2 = intern_all(table, added.map_values(|a: (u64, u64, Seq<char>)| a.2));
            let syms = added_symbols(added, t2);
            &&& syms.len() == added_count(m, entries, ips)
            &&& forall|i: int|
                #![trigger entries[i]]
                0 <= i < entries.len() && symbol_added(m, entries[i], ips) ==> {
                    let va = spec_file_to_va(m, entries[i].start, entries[i].end)->Some_0;
                    let name = match entries[i].demangled {
                        Some(d) => d,
                        None => entries[i].name,
                    };
                    let k = added_count(m, entries.take(i), ips) as int;
                    &&& syms[k].start == va.0
                    &&& syms[k].end == va.1
                    &&& t2.contains(name)
                    &&& t2[index_of(t2, name)] == name
                    &&& syms[k].name_id == index_of(t2, name) as usize
                }
        }),
{
    let added = matched_symbols(m, entries, ips);
    let names = added.map_values(|a: (u64, u64, Seq<char>)| a.2);
    let t2 = intern_all(table, names);
    lemma_matched_symbols_follow_entries(m, entries, ips);
    lemma_intern_all_holds(table, names);
    assert forall|i: int| #![trigger entries[i]] 0 <= i < entries.len() && symbol_added(m, entries[i], ips) implies {
        let va = spec_file_to_va(m, entries[i].start, entries[i].end)->Some_0;
        let name = match entries[i].demangled {
            Some(d) => d,
            None => entries[i].name,
        };
        let k = added_count(m, entries.take(i), ips) as int;
        &&& added_symbols(added, t2)[k].start == va.0
        &&& added_symbols(added, t2)[k].end == va.1
        &&& t2.contains(name)
        &&& t2[index_of(t2, name)] == name
        &&& added_symbols(added, t2)[k].name_id == index_of(t2, name) as usize
    } by {
        let k = added_count(m, entries.take(i), ips) as int;
        lemma_added_count_below(m, entries, ips, i);
        assert(added[k] == matched_symbols(m, entries, ips)[k]);
        assert(names[k] == added[k].2);
        assert(t2.contains(names[k]));
    }
}

/// `s` is in ascending order.
pub open spec fn sorted_u64(s: Seq<u64>) -> bool {
    forall|i: int, j: int| 0 <= i <= j < s.len() ==> s[i] <= s[j]
}

/// Sorts `v` with `<[u64]>::sort`, which std documents as sorting the slice
/// in ascending order; the contract claims the result is ascending and
/// holds the same values, each as often.
#[verifier::external_body]
fn sort_ascending(v: &mut Vec<u64>)
    ensures
        sorted_u64(final(v)@),
        final(v)@.to_multiset() == old(v)@.to_multiset(),
{
    v.sort();
}


impl ExportMapping {
    pub fn new(
        time: u64,
        filename_id: usize,
        start: u64,
        end: u64,
        file_offset: u64,
        anon: bool,
        id: usize,
        unwind_type: UnwindType,
    ) -> (m: Self)
        ensures
            m@ == (MappingView {
                time,
                filename_id,
                start,
                end,
                file_offset,
                va_offset: 0,
                anon,
                id,
                unwind_type,
                node: None,
                symbols: Seq::empty(),
            }),
    {
        let m = ExportMapping {
            time,
            filename_id,
            start,
            end,
            file_offset,
            va_offset: 0,
            anon,
            id,
            unwind_type,
            node: None,
            symbols: Vec::new(),
        };
        assert(symbols_view(m.symbols@) =~= Seq::empty());
        m
    }

    pub fn va_offset(&self) -> (r: u64)
        ensures
            r == self@.va_offset,
    {
        self.va_offset
    }

    pub fn set_va_offset(&mut self, va_offset: u64)
        ensures
            final(self)@ == (MappingView { va_offset, ..old(self)@ }),
    {
        self.va_offset = va_offset;
    }

    pub fn set_node(&mut self, node: ExportDevNode)
        ensures
            final(self)@ == (MappingView { node: Some(node), ..old(self)@ }),
    {
        self.node = Some(node);
    }

    pub fn time(&self) -> (r: u64)
        ensures
            r == self@.time,
    {
        self.time
    }

    pub fn time_mut(&mut self) -> (r: &mut u64)
        ensures
            *r == old(self)@.time,
            final(self)@ == (MappingView { time: *final(r), ..old(self)@ }),
    {
        &mut self.time
    }

    pub fn filename_id(&self) -> (r: usize)
        ensures
            r == self@.filename_id,
    {
        self.filename_id
    }

    pub fn start(&self) -> (r: u64)
        ensures
            r == self@.start,
    {
        self.start
    }

    pub fn end(&self) -> (r: u64)
        ensures
            r == self@.end,
    {
        self.end
    }

    pub fn end_mut(&mut self) -> (r: &mut u64)
        ensures
            *r == old(self)@.end,
            final(self)@ == (MappingView { end: *final(r), ..old(self)@ }),
    {
        &mut self.end
    }

    /// The number of bytes from start to end.
    pub fn len(&self) -> (r: u64)
        requires
            self@.start <= self@.end,
        ensures
            r == self@.end - self@.start,
    {
        self.end - self.start
    }

    pub fn file_offset(&self) -> (r: u64)
        ensures
            r == self@.file_offset,
    {
        self.file_offset
    }

    pub fn anon(&self) -> (r: bool)
        ensures
            r == self@.anon,
    {
        self.anon
    }

    pub fn unwind_type(&self) -> (r: UnwindType)
        ensures
            r == self@.unwind_type,
    {
        self.unwind_type
    }

    /// The address that `ip`, an address at or above the mapping's start,
    /// has in the mapped file's virtual layout: the offset into the mapping,
    /// plus the file offset, plus the segment's virtual-address offset.
    pub fn rva(&self, ip: u64) -> (r: u64)
        requires
            self@.start <= ip,
            ip - self@.start + self@.file_offset + self@.va_offset <= u64::MAX,
        ensures
            r == ip - self@.start + self@.file_offset + self@.va_offset,
    {
        (ip - self.start) + self.file_offset + self.va_offset
    }

    /// The module key: device and inode of the mapped file, or zeros.
    pub fn key(&self) -> (k: ModuleKey)
        ensures
            match self@.node {
                Some(n) => k == (ModuleKey { dev: n.spec_dev(), ino: n.spec_ino() }),
                None => k == (ModuleKey { dev: 0, ino: 0 }),
            },
    {
        match &self.node {
            Some(node) => ModuleKey { dev: node.dev(), ino: node.ino() },
            None => ModuleKey { dev: 0, ino: 0 },
        }
    }

    pub fn node(&self) -> (r: &Option<ExportDevNode>)
        ensures
            *r == self@.node,
    {
        &self.node
    }

    pub fn id(&self) -> (r: usize)
        ensures
            r == self@.id,
    {
        self.id
    }

    pub fn symbols(&self) -> (r: &Vec<ExportSymbol>)
        ensures
            symbols_view(r@) == self@.symbols,
    {
        &self.symbols
    }

    pub fn symbols_mut(&mut self) -> (r: &mut Vec<ExportSymbol>)
        ensures
            symbols_view(r@) == old(self)@.symbols,
            final(self)@ == (MappingView { symbols: symbols_view(final(r)@), ..old(self)@ }),
    {
        &mut self.symbols
    }

    pub fn add_symbol(&mut self, symbol: ExportSymbol)
        ensures
            final(self)@ == (MappingView { symbols: old(self)@.symbols.push(symbol@), ..old(self)@ }),
    {
        let ghost before = symbols_view(self.symbols@);
        self.symbols.push(symbol);
        assert(symbols_view(self.symbols@) =~= before.push(symbol@));
    }

    /// Whether `ip` lies in `[start, end]`.
    pub fn contains_ip(&self, ip: u64) -> (r: bool)
        ensures
            r == (self@.start <= ip && ip <= self@.end),
    {
        ip >= self.start && ip <= self.end
    }

    /// The virtual-address range of a file range (see `spec_file_to_va`).
    pub fn file_to_va_range(&self, file_start: u64, file_end: u64) -> (r: Option<(u64, u64)>)
        requires
            mapping_ok(self@),
            range_ok(self@, file_start, file_end),
        ensures
            r == spec_file_to_va(self@, file_start, file_end),
    {
        let mut file_start = file_start;
        let mut file_end = file_end;
        let map_file_start = self.file_offset();
        let map_file_end = map_file_start + self.len();
        if self.anon() || self.start() >= KERNEL_START {
            return Some((file_start, file_end));
        }
        if file_end < map_file_start || file_start > map_file_end {
            return None;
        }
        if file_start < map_file_start {
            file_start = map_file_start;
        }
        if file_end > map_file_end {
            file_end = map_file_end;
        }
        let file_len = file_end - file_start;
        let file_offset = file_start - map_file_start;
        let va_offset_start = file_offset + self.start();
        let va_offset_end = va_offset_start + file_len;
        Some((va_offset_start, va_offset_end))
    }
}


proof fn lemma_hit_permutation(a: Seq<u64>, b: Seq<u64>, start: u64, end: u64)
    requires
        a.to_multiset() == b.to_multiset(),
    ensures
        ips_hit(a, start, end) == ips_hit(b, start, end),
{
    a.to_multiset_ensures();
    b.to_multiset_ensures();
    assert(a.contains(start) <==> a.to_multiset().count(start) > 0);
    assert(b.contains(start) <==> b.to_multiset().count(start) > 0);
    assert(a.to_multiset().count(start) == b.to_multiset().count(start));
    assert(a.contains(start) == b.contains(start));
    if exists|k: int| 0 <= k < a.len() && start <= #[trigger] a[k] <= end {
        let k = choose|k: int| 0 <= k < a.len() && start <= #[trigger] a[k] <= end;
        assert(a.contains(a[k]));
        assert(a.contains(a[k]) <==> a.to_multiset().count(a[k]) > 0);
        assert(b.contains(a[k]) <==> b.to_multiset().count(a[k]) > 0);
        assert(a.to_multiset().count(a[k]) == b.to_multiset().count(a[k]));
        assert(b.contains(a[k]));
        let j = choose|j: int| 0 <= j < b.len() && b[j] == a[k];
        assert(start <= b[j] <= end);
    }
    if exists|k: int| 0 <= k < b.len() && start <= #[trigger] b[k] <= end {
        let k = choose|k: int| 0 <= k < b.len() && start <= #[trigger] b[k] <= end;
        assert(b.contains(b[k]));
        assert(a.contains(b[k]) <==> a.to_multiset().count(b[k]) > 0);
        assert(b.contains(b[k]) <==> b.to_multiset().count(b[k]) > 0);
        assert(a.to_multiset().count(b[k]) == b.to_multiset().count(b[k]));
        assert(a.contains(b[k]));
        let j = choose|j: int| 0 <= j < a.len() && a[j] == b[k];
        assert(start <= a[j] <= end);
    }
}

/// Whether a sorted list of IPs holds `start` or an IP in `[start, end]`:
/// the first IP not below `start` decides.
fn ips_hit_sorted(ips: &Vec<u64>, start: u64, end: u64) -> (r: bool)
    requires
        sorted_u64(ips@),
    ensures
        r == ips_hit(ips@, start, end),
{
    let mut lo: usize = 0;
    let mut hi: usize = ips.len();
    while lo < hi
        invariant
            lo <= hi <= ips@.len(),
            sorted_u64(ips@),
            forall|k: int| 0 <= k < lo ==> ips@[k] < start,
            forall|k: int| hi <= k < ips@.len() ==> ips@[k] >= start,
        decreases hi - lo,
    {
        let mid = lo + (hi - lo) / 2;
        if ips[mid] < start {
            lo = mid + 1;
        } else {
            hi = mid;
        }
    }
    if lo < ips.len() && (ips[lo] == start || ips[lo] <= end) {
        assert(start <= ips@[lo as int]);
        true
    } else {
        proof {
            if ips@.contains(start) {
                let k = choose|k: int| 0 <= k < ips@.len() && ips@[k] == start;
                assert(k >= lo);
            }
            if exists|k: int| 0 <= k < ips@.len() && start <= #[trigger] ips@[k] <= end {
                let k = choose|k: int| 0 <= k < ips@.len() && start <= #[trigger] ips@[k] <= end;
                assert(k >= lo);
                assert(ips@[lo as int] <= ips@[k]);
            }
        }
        false
    }
}

/// Two positions holding the same name in a table without duplicates agree.
proof fn lemma_index_of(table: Seq<Seq<char>>, name: Seq<char>, i: int)
    requires
        distinct_strings(table),
        0 <= i < table.len(),
        table[i] == name,
    ensures
        index_of(table, name) == i,
{
    let j = index_of(table, name);
    assert(0 <= j < table.len() && table[j] == name);
    if j != i {
        if j < i {
            assert(table[j] != table[i]);
        } else {
            assert(table[i] != table[j]);
        }
    }
}

impl ExportMapping {
    /// Adds, in the reader's order, every symbol whose address range in this
    /// mapping holds one of `unique_ips` (or starts at one), named by its
    /// demangled name when there is one; `unique_ips` ends up sorted.
    #[verifier::loop_isolation(false)]
    pub fn add_matching_symbols(
        &mut self,
        unique_ips: &mut Vec<u64>,
        sym_reader: &mut impl ExportSymbolReader,
        strings: &mut InternedStrings,
    )
        requires
            mapping_ok(old(self)@),
            old(strings).wf(),
            forall|i: int| 0 <= i < old(sym_reader).symbols().len() ==> range_ok(
                old(self)@,
                #[trigger] old(sym_reader).symbols()[i].start,
                old(sym_reader).symbols()[i].end,
            ),
        ensures
            sorted_u64(final(unique_ips)@),
            final(unique_ips)@.to_multiset() == old(unique_ips)@.to_multiset(),
            final(sym_reader).symbols() == old(sym_reader).symbols(),
            final(sym_reader).position() == old(sym_reader).symbols().len() + 1,
            final(sym_reader).calls() == old(sym_reader).calls().push(ReaderCall::Reset) + match_calls(
                old(self)@,
                old(sym_reader).symbols(),
                old(unique_ips)@,
            ).push(ReaderCall::Next),
            final(strings).wf(),
            ({
                let added = matched_symbols(old(self)@, old(sym_reader).symbols(), old(unique_ips)@);
                &&& final(strings)@ == intern_all(old(strings)@, added.map_values(|a: (u64, u64, Seq<char>)| a.2))
                &&& final(self)@ == (MappingView {
                    symbols: old(self)@.symbols + added_symbols(added, final(strings)@),
                    ..old(self)@
                })
            }),
    {
        let ghost ips0 = unique_ips@;
        let ghost m0 = self@;
        let ghost t0 = strings@;
        let ghost c0 = sym_reader.calls();
        sort_ascending(unique_ips);
        sym_reader.reset();
        let ghost entries = sym_reader.symbols();
        assert(c0.push(ReaderCall::Reset) + match_calls(m0, entries.take(0), ips0) =~= sym_reader.calls());
        let ghost mut matched: Seq<(u64, u64, Seq<char>)> = Seq::empty();
        assert(entries.take(0) =~= Seq::<SymbolEntry>::empty());
        assert(added_symbols(matched, strings@) =~= Seq::empty());
        assert(m0.symbols + added_symbols(matched, strings@) =~= m0.symbols);
        assert(matched.map_values(|a: (u64, u64, Seq<char>)| a.2) =~= Seq::<Seq<char>>::empty());
        loop
            invariant
                sym_reader.symbols() == entries,
                0 <= sym_reader.position() <= entries.len(),
                matched == matched_symbols(m0, entries.take(sym_reader.position()), ips0),
                sorted_u64(unique_ips@),
                unique_ips@.to_multiset() == ips0.to_multiset(),
                strings.wf(),
                strings@ == intern_all(t0, matched.map_values(|a: (u64, u64, Seq<char>)| a.2)),
                forall|k: int| 0 <= k < matched.len() ==> strings@.contains(#[trigger] matched[k].2),
                self@ == (MappingView { symbols: m0.symbols + added_symbols(matched, strings@), ..m0 }),
                sym_reader.calls() == c0.push(ReaderCall::Reset) + match_calls(m0, entries.take(sym_reader.position()), ips0),
            decreases entries.len() - sym_reader.position(),
        {
            let ghost pos = sym_reader.position();
            let ghost calls_before = sym_reader.calls();
            if !sym_reader.next() {
                assert(entries.take(pos) =~= entries);
                assert(sym_reader.calls() =~= c0.push(ReaderCall::Reset) + match_calls(m0, entries, ips0).push(
                    ReaderCall::Next,
                ));
                break;
            }
            proof {
                let t1 = entries.take(pos + 1);
                assert(t1.drop_last() =~= entries.take(pos));
                if symbol_added(m0, entries[pos], ips0) {
                    assert(match_calls(m0, t1, ips0) =~= match_calls(m0, entries.take(pos), ips0).push(ReaderCall::Next).push(
                        ReaderCall::Demangle,
                    ));
                } else {
                    assert(match_calls(m0, t1, ips0) =~= match_calls(m0, entries.take(pos), ips0).push(ReaderCall::Next));
                }
            }
            let ghost e = entries[pos];
            assert(entries.take(pos + 1).drop_last() =~= entries.take(pos));
            assert(entries.take(pos + 1).last() == e);
            let st = sym_reader.start();
            let en = sym_reader.end();
            let va = self.file_to_va_range(st, en);
            if let Some((start_ip, end_ip)) = va {
                proof {
                    lemma_hit_permutation(unique_ips@, ips0, start_ip, end_ip);
                }
                if ips_hit_sorted(unique_ips, start_ip, end_ip) {
                    let demangled = sym_reader.demangle();
                    let ghost t_before = strings@;
                    let ghost syms_before = self@.symbols;
                    let name_id = match &demangled {
                        Some(n) => strings.to_id(n.as_str()),
                        None => strings.to_id(sym_reader.name()),
                    };
                    let ghost name = chosen_name(e);
                    let ghost a = (start_ip, end_ip, name);
                    self.add_symbol(ExportSymbol::new(name_id, start_ip, end_ip));
                    proof {
                        let old_matched = matched;
                        matched = matched.push(a);
                        assert(matched.map_values(|a: (u64, u64, Seq<char>)| a.2).drop_last() =~= old_matched.map_values(
                            |a: (u64, u64, Seq<char>)| a.2,
                        ));
                        lemma_index_of(strings@, name, name_id as int);
                        assert forall|k: int| 0 <= k < old_matched.len() implies index_of(strings@, old_matched[k].2)
                            == index_of(t_before, old_matched[k].2) by {
                            assert(t_before.contains(old_matched[k].2));
                            let i = choose|i: int| 0 <= i < t_before.len() && t_before[i] == old_matched[k].2;
                            lemma_index_of(t_before, old_matched[k].2, i);
                            assert(strings@[i] == t_before[i]);
                            lemma_index_of(strings@, old_matched[k].2, i);
                        }
                        assert(added_symbols(matched, strings@) =~= added_symbols(old_matched, t_before).push(
                            ExportSymbolView { name_id, start: start_ip, end: end_ip },
                        ));
                        assert(m0.symbols + added_symbols(matched, strings@) =~= (m0.symbols + added_symbols(
                            old_matched,
                            t_before,
                        )).push(ExportSymbolView { name_id, start: start_ip, end: end_ip }));
                        assert forall|k: int| 0 <= k < matched.len() implies strings@.contains(#[trigger] matched[k].2) by {
                            if k < old_matched.len() {
                                assert(t_before.contains(old_matched[k].2));
                                let i = choose|i: int| 0 <= i < t_before.len() && t_before[i] == old_matched[k].2;
                                assert(strings@[i] == t_before[i]);
                            } else {
                                assert(strings@[name_id as int] == name);
                            }
                        }
                    }
                }
            }
        }
    }
}


/// The views of a sequence of mappings.
pub open spec fn mappings_view(v: Seq<ExportMapping>) -> Seq<MappingView> {
    v.map_values(|m: ExportMapping| m@)
}

/// Mapping `m` holds `address` and was created no later than `time`.
pub open spec fn is_candidate(m: MappingView, address: u64, time: u64) -> bool {
    m.start <= address && address <= m.end && m.time <= time
}

/// Mapping `i` is preferred over mapping `j`: it is newer, or as new and
/// earlier in the list.
pub open spec fn preferred(ms: Seq<MappingView>, i: int, j: int) -> bool {
    ms[i].time > ms[j].time || (ms[i].time == ms[j].time && i < j)
}

/// Mapping `i` is the newest candidate for `address` at `time`, the first
/// such in the list.
pub open spec fn is_best(ms: Seq<MappingView>, i: int, address: u64, time: u64) -> bool {
    &&& 0 <= i < ms.len()
    &&& is_candidate(ms[i], address, time)
    &&& forall|j: int| 0 <= j < ms.len() && #[trigger] is_candidate(ms[j], address, time) ==> j == i || preferred(ms, i, j)
}

/// At most one mapping is the best for an address and a time, so a lookup
/// names the same mapping whichever search path it takes.
pub proof fn lemma_best_unique(ms: Seq<MappingView>, i: int, j: int, address: u64, time: u64)
    requires
        is_best(ms, i, address, time),
        is_best(ms, j, address, time),
    ensures
        i == j,
{
    assert(is_candidate(ms[j], address, time));
    assert(is_candidate(ms[i], address, time));
}

/// The time bound of a lookup: none means any time.
pub open spec fn time_bound(time: Option<u64>) -> u64 {
    match time {
        Some(t) => t,
        None => u64::MAX,
    }
}

/// `new` is `old` ordered by creation time, mappings of the same time
/// keeping their order: `new[i] == old[perm[i]]` for a permutation `perm`.
pub open spec fn stable_sorted_by_time(old: Seq<MappingView>, new: Seq<MappingView>) -> bool {
    &&& new.len() == old.len()
    &&& exists|perm: Seq<int>| {
        &&& perm.len() == old.len()
        &&& forall|i: int| 0 <= i < perm.len() ==> 0 <= #[trigger] perm[i] < perm.len()
        &&& forall|i: int, j: int| 0 <= i < j < perm.len() ==> perm[i] != perm[j]
        &&& forall|i: int| 0 <= i < perm.len() ==> #[trigger] new[i] == old[perm[i]]
        &&& forall|i: int, j: int| 0 <= i < j < perm.len() ==> new[i].time <= new[j].time
        &&& forall|i: int, j: int| 0 <= i < j < perm.len() && new[i].time == new[j].time ==> perm[i] < perm[j]
    }
}

/// Sorts mappings by creation time with `<[T]>::sort_by_key`, which std
/// documents as a stable sort; the contract claims the result is a
/// permutation of the mappings, ordered by time, that keeps mappings of the
/// same time in their order.
#[verifier::external_body]
fn sort_by_time(v: &mut Vec<ExportMapping>)
    ensures
        stable_sorted_by_time(mappings_view(old(v)@), mappings_view(final(v)@)),
{
    v.sort_by_key(|m| m.time);
}

/// The mappings of a process and an index for finding the one that holds
/// an address.
pub struct ExportMappingLookup {
    mappings: Vec<ExportMapping>,
    min_lookup: usize,
    /// Indices of the mappings in ascending start order; empty until built.
    order: Vec<usize>,
    /// `max_end[k]` is the largest end among the first `k + 1` mappings of `order`.
    max_end: Vec<u64>,
}

/// Mathematical form of an `ExportMappingLookup`.
pub struct LookupView {
    pub mappings: Seq<MappingView>,
    pub min_lookup: usize,
}

impl View for ExportMappingLookup {
    type V = LookupView;

    closed spec fn view(&self) -> LookupView {
        LookupView { mappings: mappings_view(self.mappings@), min_lookup: self.min_lookup }
    }
}

/// The largest end among the mappings at positions `0..=k` of `order`.
pub open spec fn prefix_max_end(ms: Seq<MappingView>, order: Seq<usize>, k: int) -> u64
    decreases k,
{
    if k <= 0 {
        ms[order[0] as int].end
    } else {
        let prev = prefix_max_end(ms, order, k - 1);
        let e = ms[order[k] as int].end;
        if e > prev { e } else { prev }
    }
}

/// Index `x` occurs in `order`.
pub open spec fn listed(order: Seq<usize>, x: int) -> bool {
    exists|k: int| 0 <= k < order.len() && order[k] == x
}

/// `order` lists every mapping index, in ascending start order, and
/// `max_end` holds its prefix maxima of the end addresses.
pub open spec fn index_ok(ms: Seq<MappingView>, order: Seq<usize>, max_end: Seq<u64>) -> bool {
    &&& order.len() == ms.len()
    &&& max_end.len() == ms.len()
    &&& forall|k: int| 0 <= k < order.len() ==> (#[trigger] order[k]) < ms.len()
    &&& forall|x: int| 0 <= x < ms.len() ==> #[trigger] listed(order, x)
    &&& forall|a: int, b: int| 0 <= a <= b < order.len() ==> ms[order[a] as int].start <= ms[order[b] as int].start
    &&& forall|k: int| 0 <= k < max_end.len() ==> #[trigger] max_end[k] == prefix_max_end(ms, order, k)
}

proof fn lemma_prefix_max_end_bound(ms: Seq<MappingView>, order: Seq<usize>, q: int, k: int)
    requires
        0 <= q <= k < order.len(),
        forall|j: int| 0 <= j < order.len() ==> (#[trigger] order[j]) < ms.len(),
    ensures
        prefix_max_end(ms, order, k) >= ms[order[q] as int].end,
    decreases k,
{
    if k > q {
        lemma_prefix_max_end_bound(ms, order, q, k - 1);
    }
}

impl ExportMappingLookup {
    /// The index is either not built or describes the current mappings.
    pub closed spec fn wf(&self) -> bool {
        self.order@.len() == 0 || index_ok(self@.mappings, self.order@, self.max_end@)
    }

    pub fn default() -> (l: Self)
        ensures
            l@.mappings == Seq::<MappingView>::empty(),
            l@.min_lookup == 16,
            l.wf(),
    {
        let l = ExportMappingLookup { mappings: Vec::new(), min_lookup: 16, order: Vec::new(), max_end: Vec::new() };
        assert(l@.mappings =~= Seq::<MappingView>::empty());
        l
    }

    pub fn set_lookup_min_size(&mut self, min_lookup: usize)
        requires
            old(self).wf(),
        ensures
            final(self)@ == (LookupView { min_lookup, ..old(self)@ }),
            final(self).wf(),
    {
        self.min_lookup = min_lookup;
    }

    /// The mappings, for changing; the index is dropped and rebuilt on the
    /// next lookup.
    pub fn mappings_mut(&mut self) -> (r: &mut Vec<ExportMapping>)
        ensures
            mappings_view(r@) == old(self)@.mappings,
            final(self)@ == (LookupView { mappings: mappings_view(final(r)@), ..old(self)@ }),
            final(self).wf(),
    {
        self.order.clear();
        self.max_end.clear();
        &mut self.mappings
    }

    /// Orders the mappings by creation time, keeping the order of mappings
    /// created at the same time.
    pub fn sort_mappings_by_time(&mut self)
        ensures
            final(self).wf(),
            final(self)@.min_lookup == old(self)@.min_lookup,
            stable_sorted_by_time(old(self)@.mappings, final(self)@.mappings),
    {
        self.order.clear();
        self.max_end.clear();
        sort_by_time(&mut self.mappings);
    }

    pub fn mappings(&self) -> (r: &Vec<ExportMapping>)
        ensures
            mappings_view(r@) == self@.mappings,
    {
        &self.mappings
    }

    /// The index of the newest mapping that holds `address` and was created
    /// no later than `time` (any time when `None`); among equally new ones,
    /// the first. With at least `min_lookup` mappings the search uses an
    /// index by start address, built on first use after a change.
    pub fn find_index(&mut self, address: u64, time: Option<u64>) -> (r: Option<usize>)
        requires
            old(self).wf(),
        ensures
            final(self)@ == old(self)@,
            final(self).wf(),
            r matches Some(i) ==> is_best(old(self)@.mappings, i as int, address, time_bound(time)),
            r is None ==> forall|j: int|
                0 <= j < old(self)@.mappings.len() ==> !is_candidate(#[trigger] old(self)@.mappings[j], address, time_bound(time)),
    {
        let time = match time {
            Some(t) => t,
            None => u64::MAX,
        };
        if self.mappings.len() >= self.min_lookup {
            if self.order.len() == 0 {
                self.build_lookup();
            }
            self.indexed_find(address, time)
        } else {
            self.linear_find(address, time)
        }
    }

    /// Builds the index: mapping indices sorted by start address (equal
    /// starts keep list order) and the running maximum of their ends.
    fn build_lookup(&mut self)
        ensures
            final(self)@ == old(self)@,
            index_ok(final(self)@.mappings, final(self).order@, final(self).max_end@),
    {
        let ghost ms = self@.mappings;
        let n = self.mappings.len();
        let mut order: Vec<usize> = Vec::new();
        let mut i: usize = 0;
        while i < n
            invariant
                i <= n,
                n == ms.len(),
                ms == self@.mappings,
                order@.len() == i,
                forall|k: int| 0 <= k < order@.len() ==> (#[trigger] order@[k]) < i,
                forall|x: int| 0 <= x < i ==> #[trigger] listed(order@, x),
                forall|a: int, b: int| 0 <= a <= b < order@.len() ==> ms[order@[a] as int].start <= ms[order@[b] as int].start,
            decreases n - i,
        {
            let s = self.mappings[i].start();
            assert(ms[i as int].start == s);
            let mut lo: usize = 0;
            let mut hi: usize = order.len();
            while lo < hi
                invariant
                    lo <= hi <= order@.len(),
                    forall|k: int| 0 <= k < lo ==> ms[order@[k] as int].start <= s,
                    forall|k: int| hi <= k < order@.len() ==> ms[order@[k] as int].start > s,
                    forall|k: int| 0 <= k < order@.len() ==> (#[trigger] order@[k]) < i,
                    forall|a: int, b: int| 0 <= a <= b < order@.len() ==> ms[order@[a] as int].start <= ms[order@[b] as int].start,
                    i < n,
                    n == ms.len(),
                    ms == self@.mappings,
                decreases hi - lo,
            {
                let mid = lo + (hi - lo) / 2;
                assert(ms[order@[mid as int] as int] == self.mappings@[order@[mid as int] as int]@);
                if self.mappings[order[mid]].start() <= s {
                    lo = mid + 1;
                } else {
                    hi = mid;
                }
            }
            let ghost before = order@;
            order.insert(lo, i);
            proof {
                assert forall|x: int| 0 <= x < i + 1 implies #[trigger] listed(order@, x) by {
                    if x == i {
                        assert(order@[lo as int] == i);
                    } else {
                        assert(listed(before, x));
                        let k = choose|k: int| 0 <= k < before.len() && before[k] == x;
                        if k < lo {
                            assert(order@[k] == x);
                        } else {
                            assert(order@[k + 1] == x);
                        }
                    }
                }
            }
            i = i + 1;
        }
        let mut max_end: Vec<u64> = Vec::new();
        let mut k: usize = 0;
        while k < n
            invariant
                k <= n,
                n == ms.len(),
                ms == self@.mappings,
                order@.len() == n,
                forall|j: int| 0 <= j < order@.len() ==> (#[trigger] order@[j]) < n,
                max_end@.len() == k,
                forall|j: int| 0 <= j < k ==> #[trigger] max_end@[j] == prefix_max_end(ms, order@, j),
            decreases n - k,
        {
            let e = self.mappings[order[k]].end();
            assert(ms[order@[k as int] as int] == self.mappings@[order@[k as int] as int]@);
            if k == 0 {
                max_end.push(e);
            } else {
                let prev = max_end[k - 1];
                if e > prev {
                    max_end.push(e);
                } else {
                    max_end.push(prev);
                }
            }
            k = k + 1;
        }
        self.order = order;
        self.max_end = max_end;
    }

    /// Search through the index: the mappings that start at or below
    /// `address` are visited from the highest start down, stopping once no
    /// earlier mapping can reach `address`.
    fn indexed_find(&self, address: u64, time: u64) -> (r: Option<usize>)
        requires
            index_ok(self@.mappings, self.order@, self.max_end@),
        ensures
            r matches Some(i) ==> is_best(self@.mappings, i as int, address, time),
            r is None ==> forall|j: int|
                0 <= j < self@.mappings.len() ==> !is_candidate(#[trigger] self@.mappings[j], address, time),
    {
        let ghost ms = self@.mappings;
        let ghost order = self.order@;
        let n = self.order.len();
        let mut lo: usize = 0;
        let mut hi: usize = n;
        while lo < hi
            invariant
                lo <= hi <= n,
                n == order.len(),
                ms == self@.mappings,
                order == self.order@,
                index_ok(ms, order, self.max_end@),
                forall|k: int| 0 <= k < lo ==> ms[order[k] as int].start <= address,
                forall|k: int| hi <= k < n ==> ms[order[k] as int].start > address,
            decreases hi - lo,
        {
            let mid = lo + (hi - lo) / 2;
            assert(ms[order[mid as int] as int] == self.mappings@[order[mid as int] as int]@);
            if self.mappings[self.order[mid]].start() <= address {
                lo = mid + 1;
            } else {
                hi = mid;
            }
        }
        let p = lo;
        let mut k = p;
        let mut best: Option<usize> = None;
        while k > 0 && self.max_end[k - 1] >= address
            invariant
                k <= p <= n,
                n == order.len(),
                ms == self@.mappings,
                order == self.order@,
                index_ok(ms, order, self.max_end@),
                forall|j: int| p <= j < n ==> ms[order[j] as int].start > address,
                best matches Some(b) ==> b < ms.len() && is_candidate(ms[b as int], address, time),
                forall|j: int| k <= j < p && is_candidate(#[trigger] ms[order[j] as int], address, time) ==> (
                    best matches Some(b) && (order[j] == b || preferred(ms, b as int, order[j] as int))),
            decreases k,
        {
            let q = k - 1;
            let idx = self.order[q];
            let map = &self.mappings[idx];
            assert(ms[idx as int] == map@);
            if map.contains_ip(address) && map.time() <= time {
                match best {
                    Some(b) => {
                        let bt = self.mappings[b].time();
                        if map.time() > bt || (map.time() == bt && idx < b) {
                            best = Some(idx);
                        }
                    },
                    None => {
                        best = Some(idx);
                    },
                }
            }
            k = q;
        }
        proof {
            assert forall|j: int| 0 <= j < ms.len() && #[trigger] is_candidate(ms[j], address, time) implies (
                best matches Some(b) && (j == b || preferred(ms, b as int, j))) by {
                assert(listed(order, j));
                let q = choose|q: int| 0 <= q < order.len() && order[q] == j;
                if q >= p {
                    assert(ms[order[q] as int].start > address);
                }
                if q < k {
                    lemma_prefix_max_end_bound(ms, order, q, k - 1);
                }
                assert(is_candidate(ms[order[q] as int], address, time));
            }
        }
        best
    }

    fn linear_find(&self, address: u64, time: u64) -> (r: Option<usize>)
        ensures
            r matches Some(i) ==> is_best(self@.mappings, i as int, address, time),
            r is None ==> forall|j: int|
                0 <= j < self@.mappings.len() ==> !is_candidate(#[trigger] self@.mappings[j], address, time),
    {
        let ghost ms = self@.mappings;
        let mut best: Option<usize> = None;
        let mut index: usize = 0;
        while index < self.mappings.len()
            invariant
                index <= self.mappings@.len(),
                ms == self@.mappings,
                ms.len() == self.mappings@.len(),
                best matches Some(b) ==> b < index && is_candidate(ms[b as int], address, time),
                forall|j: int| 0 <= j < index && #[trigger] is_candidate(ms[j], address, time) ==> (best matches Some(b) && (
                    j == b || preferred(ms, b as int, j))),
            decreases self.mappings.len() - index,
        {
            let map = &self.mappings[index];
            assert(ms[index as int] == map@);
            if map.contains_ip(address) && map.time() <= time {
                match best {
                    Some(b) => {
                        if map.time() > self.mappings[b].time() {
                            best = Some(index);
                        }
                    },
                    None => {
                        best = Some(index);
                    },
                }
            }
            index = index + 1;
        }
        best
    }

    /// The mapping that `find_index` picks.
    pub fn find(&mut self, address: u64, time: Option<u64>) -> (r: Option<&ExportMapping>)
        requires
            old(self).wf(),
        ensures
            final(self)@ == old(self)@,
            final(self).wf(),
            r matches Some(m) ==> exists|i: int| is_best(old(self)@.mappings, i, address, time_bound(time)) && m@ == old(self)@.mappings[i],
            r is None ==> forall|j: int|
                0 <= j < old(self)@.mappings.len() ==> !is_candidate(#[trigger] old(self)@.mappings[j], address, time_bound(time)),
    {
        match self.find_index(address, time) {
            Some(index) => Some(&self.mappings[index]),
            None => None,
        }
    }
}

impl Clone for ExportMappingLookup {
    fn clone(&self) -> (r: Self)
        ensures
            r@ == self@,
            r.wf(),
    {
        let mappings = self.mappings.clone();
        assert(mappings_view(mappings@) =~= mappings_view(self.mappings@));
        ExportMappingLookup { mappings, min_lookup: self.min_lookup, order: Vec::new(), max_end: Vec::new() }
    }
}

} // verus!
