//! Symbols of code mappings and the readers that produce them.

use vstd::prelude::*;
use vstd::arithmetic::power2::pow2;
use std::collections::HashSet;
use crate::intern::InternedStrings;
use crate::symtext::{
    kallsyms_addr, kallsyms_is_code, kallsyms_name, kallsyms_line_ok, parse_kallsyms_line, perf_map_line,
    parse_perf_map_line, r2r_line_ok, r2r_start, r2r_end, r2r_name, parse_r2r_line, r2r_signature, parse_r2r_signature,
};

verus! {

broadcast use vstd::std_specs::hash::group_hash_axioms;

pub const SYM_FLAG_MUST_MATCH: u8 = 1;

/// Smallest power of two that is at least `n`.
pub open spec fn is_next_power_of_two(n: u64, p: u64) -> bool {
    exists|k: nat| k < 64 && p == #[trigger] pow2(k) && p >= n && (k == 0 || pow2((k - 1) as nat) < n)
}

/// The smallest power of two that is at least `n` (1 for 0).
pub fn next_power_of_two(n: u64) -> (p: u64)
    requires
        n <= 0x8000_0000_0000_0000,
    ensures
        is_next_power_of_two(n, p),
        p >= 1,
{
    let mut p: u64 = 1;
    let ghost mut k: nat = 0;
    proof {
        vstd::arithmetic::power2::lemma2_to64();
    }
    while p < n
        invariant
            k < 64,
            p == pow2(k),
            k == 0 || pow2((k - 1) as nat) < n,
            n <= 0x8000_0000_0000_0000,
            p <= 0x8000_0000_0000_0000,
        decreases 0x8000_0000_0000_0000 - p,
    {
        proof {
            vstd::arithmetic::power2::lemma2_to64();
            vstd::arithmetic::power2::lemma2_to64_rest();
            if k >= 63 {
                if k > 63 {
                    vstd::arithmetic::power2::lemma_pow2_strictly_increases(63, k);
                }
                assert(false);
            }
            vstd::arithmetic::power2::lemma_pow2_unfold(k + 1);
            if k < 62 {
                vstd::arithmetic::power2::lemma_pow2_strictly_increases(k + 1, 63);
            }
        }
        p = p * 2;
        proof {
            k = k + 1;
        }
    }
    assert(is_next_power_of_two(n, p));
    p
}

/// Records which pages of the address space held sampled instruction
/// pointers.
pub struct SymbolPageMap {
    pages: HashSet<u64>,
    page_size: u64,
    page_mask: u64,
}

/// Mathematical form of a `SymbolPageMap`.
pub struct SymbolPageMapView {
    pub pages: Set<u64>,
    pub page_size: u64,
    pub page_mask: u64,
}

impl View for SymbolPageMap {
    type V = SymbolPageMapView;

    closed spec fn view(&self) -> SymbolPageMapView {
        SymbolPageMapView { pages: self.pages@, page_size: self.page_size, page_mask: self.page_mask }
    }
}

/// Some page `start_page + k * page_size` up to `end_page` is marked.
pub open spec fn any_page_seen(pages: Set<u64>, start_page: u64, end_page: u64, page_size: u64) -> bool {
    exists|k: nat| start_page + k * page_size <= end_page && #[trigger] pages.contains((start_page + k * page_size) as u64)
}

/// Once the page of `ip` is marked, a range from `ip` to `ip` has been
/// seen.
pub proof fn lemma_marked_ip_seen(pages: Set<u64>, ip: u64, page_mask: u64, page_size: u64)
    ensures
        any_page_seen(pages.insert(ip & page_mask), ip & page_mask, ip & page_mask, page_size),
{
    let p = ip & page_mask;
    assert(p + 0 * page_size == p);
    assert(pages.insert(p).contains((p + 0nat * page_size) as u64));
}

/// A power of two is its own next power of two, so a map made for a page
/// size `pow2(n)` masks with the complement of `pow2(n) - 1`.
pub proof fn lemma_next_power_of_two_of_power(n: nat, q: u64)
    requires
        n < 64,
        is_next_power_of_two(pow2(n) as u64, q),
    ensures
        q == pow2(n),
{
    vstd::bits::lemma_u64_pow2_no_overflow(n);
    let k = choose|k: nat| k < 64 && q == #[trigger] pow2(k) && q >= pow2(n) as u64 && (k == 0 || pow2((k - 1) as nat) < pow2(n) as u64);
    if k > n {
        if (k - 1) as nat > n {
            vstd::arithmetic::power2::lemma_pow2_strictly_increases(n, (k - 1) as nat);
        }
    } else if k < n {
        vstd::arithmetic::power2::lemma_pow2_strictly_increases(k, n);
    }
}

/// Masking with the complement of `pow2(n) - 1` clears the low bits: the
/// result is a multiple of `pow2(n)`.
proof fn lemma_masked_multiple(x: u64, n: nat)
    requires
        n < 64,
    ensures
        (x & !((pow2(n) - 1) as u64)) % (pow2(n) as u64) == 0,
{
    vstd::bits::lemma_u64_pow2_no_overflow(n);
    let m = (pow2(n) - 1) as u64;
    let y = x & !m;
    assert(y & m == 0) by (bit_vector)
        requires
            y == x & !m,
    ;
    vstd::bits::lemma_u64_low_bits_mask_is_mod(y, n);
}

/// For a page size that is a power of two and the mask that it gives, a
/// range has been seen exactly when some marked IP lies on a page from
/// the page of `start` to the page of `end`: stepping from the first page
/// by the page size meets every page of the range.
pub proof fn lemma_seen_range_masked(ips: Set<u64>, n: nat, start: u64, end: u64)
    requires
        n < 64,
    ensures
        ({
            let p = pow2(n) as u64;
            let mask = !((pow2(n) - 1) as u64);
            let pages = ips.map(|ip: u64| ip & mask);
            any_page_seen(pages, start & mask, end & mask, p) <==> exists|ip: u64|
                #![trigger ips.contains(ip)]
                ips.contains(ip) && (start & mask) <= (ip & mask) <= (end & mask)
        }),
{
    vstd::bits::lemma_u64_pow2_no_overflow(n);
    let p = pow2(n) as u64;
    let mask = !((pow2(n) - 1) as u64);
    let pages = ips.map(|ip: u64| ip & mask);
    let sp = start & mask;
    let ep = end & mask;
    if any_page_seen(pages, sp, ep, p) {
        let k = choose|k: nat| sp + k * p <= ep && #[trigger] pages.contains((sp + k * p) as u64);
        assert(k * p >= 0) by (nonlinear_arith)
            requires
                p > 0,
        ;
        let q = (sp + k * p) as u64;
        assert(pages.contains(q));
        let ip = choose|ip: u64| ips.contains(ip) && q == ip & mask;
        assert(ips.contains(ip) && sp <= (ip & mask) <= ep);
    }
    if exists|ip: u64| #![trigger ips.contains(ip)] ips.contains(ip) && sp <= (ip & mask) <= ep {
        let ip = choose|ip: u64| #![trigger ips.contains(ip)] ips.contains(ip) && sp <= (ip & mask) <= ep;
        let q = ip & mask;
        lemma_masked_multiple(start, n);
        lemma_masked_multiple(ip, n);
        let pi = p as int;
        vstd::arithmetic::div_mod::lemma_fundamental_div_mod(q as int, pi);
        vstd::arithmetic::div_mod::lemma_fundamental_div_mod(sp as int, pi);
        let a = q as int / pi;
        let b = sp as int / pi;
        assert(q as int == pi * a);
        assert(sp as int == pi * b);
        assert(a >= b) by (nonlinear_arith)
            requires
                pi * a >= pi * b,
                pi > 0,
        ;
        let k = (a - b) as nat;
        assert(sp + k * p == q) by (nonlinear_arith)
            requires
                q == pi * a,
                sp == pi * b,
                k == a - b,
                pi == p,
        ;
        assert(pages.contains(q));
        assert(pages.contains((sp + k * p) as u64));
    }
}

impl SymbolPageMap {
    /// An empty map for pages of `page_size` bytes; addresses are masked
    /// down to the next power of two of the page size.
    pub fn new(page_size: u64) -> (m: Self)
        requires
            page_size <= 0x8000_0000_0000_0000,
        ensures
            m@.pages == Set::<u64>::empty(),
            m@.page_size == page_size,
            exists|p: u64| is_next_power_of_two(page_size, p) && m@.page_mask == !((p - 1) as u64),
    {
        let p = next_power_of_two(page_size);
        SymbolPageMap { pages: HashSet::new(), page_size, page_mask: !(p - 1) }
    }

    /// Marks the page that holds `ip`.
    pub fn mark_ip(&mut self, ip: u64)
        ensures
            final(self)@ == (SymbolPageMapView { pages: old(self)@.pages.insert(ip & old(self)@.page_mask), ..old(self)@ }),
    {
        let page = ip & self.page_mask;
        self.pages.insert(page);
    }

    /// Whether any page from the page of `start` to the page of `end`,
    /// stepping by the page size, was marked. With a page size of 0 the
    /// walk never moves, so it only ends when the range is empty or its
    /// first page is marked.
    pub fn seen_range(&self, start: u64, end: u64) -> (r: bool)
        requires
            self@.page_size > 0 || (start & self@.page_mask) > (end & self@.page_mask) || self@.pages.contains(
                start & self@.page_mask,
            ),
        ensures
            r == any_page_seen(self@.pages, start & self@.page_mask, end & self@.page_mask, self@.page_size),
    {
        let start_page = start & self.page_mask;
        let end_page = end & self.page_mask;
        let ps = self.page_size;
        if ps == 0 {
            proof {
                if start_page <= end_page {
                    assert(self@.pages.contains((start_page + 0nat * ps) as u64));
                }
            }
            return start_page <= end_page;
        }
        let mut page = start_page;
        let ghost mut k: nat = 0;
        while page <= end_page
            invariant
                page as int == start_page + k * ps,
                start_page == start & self@.page_mask,
                end_page == end & self@.page_mask,
                ps == self@.page_size,
                ps > 0,
                forall|j: nat| j < k ==> !(#[trigger] self@.pages.contains((start_page + j * ps) as u64)),
            decreases (if page <= end_page { end_page - page + 1 } else { 0 }),
        {
            if self.pages.contains(&page) {
                assert(self@.pages.contains((start_page + k * ps) as u64));
                assert(start_page + k * ps <= end_page);
                assert(any_page_seen(self@.pages, start_page, end_page, ps));
                return true;
            }
            if page > u64::MAX - ps {
                proof {
                    assert forall|j: nat| start_page + j * ps <= end_page implies !(#[trigger] self@.pages.contains(
                        (start_page + j * ps) as u64,
                    )) by {
                        if j > k {
                            assert(j * ps >= (k + 1) * ps) by (nonlinear_arith)
                                requires j >= k + 1, ps > 0;
                            assert((k + 1) * ps == k * ps + ps) by (nonlinear_arith);
                        }
                    }
                }
                return false;
            }
            page = page + ps;
            proof {
                assert((k + 1) * ps == k * ps + ps) by (nonlinear_arith);
                k = k + 1;
            }
        }
        proof {
            assert forall|j: nat| start_page + j * ps <= end_page implies !(#[trigger] self@.pages.contains(
                (start_page + j * ps) as u64,
            )) by {
                if j >= k {
                    assert(j * ps >= k * ps) by (nonlinear_arith)
                        requires j >= k, ps > 0;
                }
            }
        }
        false
    }
}


/// A symbol of a mapping: the interned name and the address range.
pub struct ExportSymbol {
    name_id: usize,
    start: u64,
    end: u64,
}

/// Mathematical form of an `ExportSymbol`.
pub struct ExportSymbolView {
    pub name_id: usize,
    pub start: u64,
    pub end: u64,
}

impl View for ExportSymbol {
    type V = ExportSymbolView;

    closed spec fn view(&self) -> ExportSymbolView {
        ExportSymbolView { name_id: self.name_id, start: self.start, end: self.end }
    }
}

impl Clone for ExportSymbol {
    fn clone(&self) -> (r: Self)
        ensures
            r@ == self@,
    {
        ExportSymbol { name_id: self.name_id, start: self.start, end: self.end }
    }
}

impl ExportSymbol {
    pub fn new(name_id: usize, start: u64, end: u64) -> (s: Self)
        ensures
            s@ == (ExportSymbolView { name_id, start, end }),
    {
        ExportSymbol { name_id, start, end }
    }

    pub fn name_id(&self) -> (r: usize)
        ensures
            r == self@.name_id,
    {
        self.name_id
    }

    pub fn start(&self) -> (r: u64)
        ensures
            r == self@.start,
    {
        self.start
    }

    pub fn end(&self) -> (r: u64)
        ensures
            r == self@.end,
    {
        self.end
    }
}

/// A symbol that appeared at a point in time.
pub struct ExportTimeSymbol {
    time: u64,
    symbol: ExportSymbol,
}

impl ExportTimeSymbol {
    pub closed spec fn spec_time(&self) -> u64 {
        self.time
    }

    pub closed spec fn spec_symbol(&self) -> ExportSymbolView {
        self.symbol@
    }

    pub fn new(time: u64, symbol: ExportSymbol) -> (s: Self)
        ensures
            s.spec_time() == time,
            s.spec_symbol() == symbol@,
    {
        ExportTimeSymbol { time, symbol }
    }

    pub fn time(&self) -> (r: u64)
        ensures
            r == self.spec_time(),
    {
        self.time
    }

    pub fn symbol(&self) -> (r: ExportSymbol)
        ensures
            r@ == self.spec_symbol(),
    {
        self.symbol.clone()
    }
}

/// A symbol reported at run time by a process (for example by a JIT).
pub struct DynamicSymbol<'a> {
    time: u64,
    pid: u32,
    start: u64,
    end: u64,
    name: &'a str,
    flags: u8,
}

/// Mathematical form of a `DynamicSymbol`.
pub struct DynamicSymbolView {
    pub time: u64,
    pub pid: u32,
    pub start: u64,
    pub end: u64,
    pub name: Seq<char>,
    pub flags: u8,
}

impl<'a> View for DynamicSymbol<'a> {
    type V = DynamicSymbolView;

    closed spec fn view(&self) -> DynamicSymbolView {
        DynamicSymbolView {
            time: self.time,
            pid: self.pid,
            start: self.start,
            end: self.end,
            name: self.name@,
            flags: self.flags,
        }
    }
}

impl<'a> DynamicSymbol<'a> {
    pub fn new(time: u64, pid: u32, start: u64, end: u64, name: &'a str) -> (s: Self)
        ensures
            s@ == (DynamicSymbolView { time, pid, start, end, name: name@, flags: 0 }),
    {
        DynamicSymbol { time, pid, start, end, name, flags: 0 }
    }

    pub fn time(&self) -> (r: u64)
        ensures
            r == self@.time,
    {
        self.time
    }

    pub fn pid(&self) -> (r: u32)
        ensures
            r == self@.pid,
    {
        self.pid
    }

    pub fn start(&self) -> (r: u64)
        ensures
            r == self@.start,
    {
        self.start
    }

    pub fn end(&self) -> (r: u64)
        ensures
            r == self@.end,
    {
        self.end
    }

    pub fn name(&self) -> (r: &str)
        ensures
            r@ == self@.name,
    {
        self.name
    }

    pub fn flags(&self) -> (r: u8)
        ensures
            r == self@.flags,
    {
        self.flags
    }

    /// Sets the bits of `flag`.
    pub fn set_flag(&mut self, flag: u8)
        ensures
            final(self)@ == (DynamicSymbolView { flags: old(self)@.flags | flag, ..old(self)@ }),
    {
        self.flags = self.flags | flag;
    }

    /// Whether every bit of `flag` is set.
    pub fn has_flag(&self, flag: u8) -> (r: bool)
        ensures
            r == (self@.flags & flag == flag),
    {
        self.flags & flag == flag
    }

    /// The symbol with its name interned in `strings`.
    pub fn to_export_time_symbol(&self, strings: &mut InternedStrings) -> (s: ExportTimeSymbol)
        requires
            old(strings).wf(),
        ensures
            final(strings).wf(),
            s.spec_time() == self@.time,
            s.spec_symbol().start == self@.start,
            s.spec_symbol().end == self@.end,
            s.spec_symbol().name_id < final(strings)@.len(),
            final(strings)@[s.spec_symbol().name_id as int] == self@.name,
            old(strings)@.contains(self@.name) ==> final(strings)@ == old(strings)@,
            !old(strings)@.contains(self@.name) ==> final(strings)@ == old(strings)@.push(self@.name),
    {
        let name_id = strings.to_id(self.name);
        ExportTimeSymbol::new(self.time, ExportSymbol { name_id, start: self.start, end: self.end })
    }
}

/// One symbol as a reader yields it.
pub struct SymbolEntry {
    pub start: u64,
    pub end: u64,
    pub name: Seq<char>,
    pub demangled: Option<Seq<char>>,
}

/// A call that changes a symbol reader.
#[derive(Debug, Clone, Copy, PartialEq, Eq, Structural)]
pub enum ReaderCall {
    Reset,
    Next,
    Demangle,
}

/// A source of symbols: after `reset`, each `next` that returns true moves
/// to the next symbol, whose range and names the other methods report.
pub trait ExportSymbolReader {
    /// The calls of `reset`, `next` and `demangle` made on this reader so
    /// far, in order.
    closed spec fn calls(&self) -> Seq<ReaderCall> {
        Seq::empty()
    }

    /// The symbols that a pass over this reader yields, in order.
    closed spec fn symbols(&self) -> Seq<SymbolEntry> {
        Seq::empty()
    }

    /// How many symbols the current pass has moved over; one past the
    /// number of symbols once a pass has ended or before one has begun.
    closed spec fn position(&self) -> int {
        0
    }

    fn reset(&mut self)
        ensures
            final(self).symbols() == old(self).symbols(),
            final(self).position() == 0,
            final(self).calls() == old(self).calls().push(ReaderCall::Reset),
    ;

    fn next(&mut self) -> (r: bool)
        ensures
            final(self).symbols() == old(self).symbols(),
            r == (0 <= old(self).position() < old(self).symbols().len()),
            r ==> final(self).position() == old(self).position() + 1,
            !r ==> final(self).position() == final(self).symbols().len() + 1,
            final(self).calls() == old(self).calls().push(ReaderCall::Next),
    ;

    fn start(&self) -> (r: u64)
        ensures
            0 < self.position() <= self.symbols().len() ==> r == self.symbols()[self.position() - 1].start,
    ;

    fn end(&self) -> (r: u64)
        ensures
            0 < self.position() <= self.symbols().len() ==> r == self.symbols()[self.position() - 1].end,
    ;

    fn name(&self) -> (r: &str)
        ensures
            0 < self.position() <= self.symbols().len() ==> r@ == self.symbols()[self.position() - 1].name,
    ;

    fn demangle(&mut self) -> (r: Option<String>)
        ensures
            final(self).symbols() == old(self).symbols(),
            final(self).position() == old(self).position(),
            0 < old(self).position() <= old(self).symbols().len() ==> match old(self).symbols()[old(self).position() - 1].demangled {
                Some(d) => r matches Some(x) && x@ == d,
                None => r is None,
            },
            final(self).calls() == old(self).calls().push(ReaderCall::Demangle),
    ;
}


/// The characters of each line.
pub open spec fn line_views(lines: Seq<String>) -> Seq<Seq<char>> {
    lines.map_values(|l: String| l@)
}

/// A symbol that a reader holds: its range and name.
pub struct SymbolRow {
    pub start: u64,
    pub end: u64,
    pub name: String,
}

/// The entry that a row stands for; rows carry no demangled name.
pub open spec fn row_entry(r: SymbolRow) -> SymbolEntry {
    SymbolEntry { start: r.start, end: r.end, name: r.name@, demangled: None }
}

/// The entries of a sequence of rows.
pub open spec fn row_entries(rows: Seq<SymbolRow>) -> Seq<SymbolEntry> {
    rows.map_values(|r: SymbolRow| row_entry(r))
}

/// The symbol of line `i` of a kernel symbol list: it ends just below the
/// next line's address, or at the top of the address space when it is the
/// last line or its address is hidden as 0.
pub open spec fn kernel_entry(ls: Seq<Seq<char>>, i: int) -> SymbolEntry {
    let addr = kallsyms_addr(ls[i]);
    SymbolEntry {
        start: addr,
        end: if addr != 0 && i + 1 < ls.len() {
            (kallsyms_addr(ls[i + 1]) - 1) as u64
        } else {
            u64::MAX
        },
        name: kallsyms_name(ls[i]),
        demangled: None,
    }
}

/// Every line's address is hexadecimal, and a line after a code symbol
/// with an address has an address itself, so that the symbol can end below
/// it.
pub open spec fn kernel_lines_ok(ls: Seq<Seq<char>>) -> bool {
    &&& forall|i: int| 0 <= i < ls.len() ==> kallsyms_line_ok(#[trigger] ls[i])
    &&& forall|i: int|
        0 <= i < ls.len() - 1 && kallsyms_is_code(#[trigger] ls[i]) && kallsyms_addr(ls[i]) != 0 ==> kallsyms_addr(ls[i + 1])
            != 0
}

/// The code symbols among the first `n` lines of a kernel symbol list.
pub open spec fn kernel_symbols_upto(ls: Seq<Seq<char>>, n: int) -> Seq<SymbolEntry>
    decreases n,
{
    if n <= 0 {
        Seq::empty()
    } else if kallsyms_is_code(ls[n - 1]) {
        kernel_symbols_upto(ls, n - 1).push(kernel_entry(ls, n - 1))
    } else {
        kernel_symbols_upto(ls, n - 1)
    }
}

/// The symbols of a kernel symbol list.
pub open spec fn kernel_symbols(ls: Seq<Seq<char>>) -> Seq<SymbolEntry> {
    kernel_symbols_upto(ls, ls.len() as int)
}

/// The number of code lines among the first `n` lines.
pub open spec fn kernel_code_count(ls: Seq<Seq<char>>, n: int) -> nat
    decreases n,
{
    if n <= 0 {
        0
    } else {
        kernel_code_count(ls, n - 1) + if kallsyms_is_code(ls[n - 1]) { 1nat } else { 0nat }
    }
}

/// Symbol `k` comes from one of the first `n` lines: a code line with `k`
/// code lines before it.
pub open spec fn kernel_symbol_line(ls: Seq<Seq<char>>, n: int, k: int) -> bool {
    exists|i: int| 0 <= i < n && kallsyms_is_code(ls[i]) && #[trigger] kernel_code_count(ls, i) == k
}

proof fn lemma_kernel_symbols_upto(ls: Seq<Seq<char>>, n: int)
    requires
        0 <= n <= ls.len(),
    ensures
        kernel_symbols_upto(ls, n).len() == kernel_code_count(ls, n),
        forall|i: int|
            0 <= i < n && kallsyms_is_code(ls[i]) ==> #[trigger] kernel_symbols_upto(ls, n)[kernel_code_count(ls, i) as int]
                == kernel_entry(ls, i),
        forall|k: int| 0 <= k < kernel_code_count(ls, n) ==> #[trigger] kernel_symbol_line(ls, n, k),
    decreases n,
{
    if n > 0 {
        lemma_kernel_symbols_upto(ls, n - 1);
        let c = kernel_code_count(ls, n - 1);
        if kallsyms_is_code(ls[n - 1]) {
            assert(kernel_code_count(ls, n - 1) == c);
        }
        assert forall|k: int| 0 <= k < kernel_code_count(ls, n) implies #[trigger] kernel_symbol_line(ls, n, k) by {
            if k == c {
                assert(kallsyms_is_code(ls[n - 1]) && kernel_code_count(ls, n - 1) == k);
            } else {
                assert(kernel_symbol_line(ls, n - 1, k));
                let i = choose|i: int| 0 <= i < n - 1 && kallsyms_is_code(ls[i]) && #[trigger] kernel_code_count(ls, i) == k;
            }
        }
        assert forall|i: int| 0 <= i < n - 1 && kallsyms_is_code(ls[i]) implies #[trigger] kernel_symbols_upto(ls, n)[kernel_code_count(ls, i) as int]
            == kernel_entry(ls, i) by {
            lemma_count_below(ls, i, n - 1);
            assert(kernel_symbols_upto(ls, n - 1)[kernel_code_count(ls, i) as int] == kernel_entry(ls, i));
        }
    }
}

proof fn lemma_count_below(ls: Seq<Seq<char>>, i: int, n: int)
    requires
        0 <= i < n <= ls.len(),
        kallsyms_is_code(ls[i]),
    ensures
        kernel_code_count(ls, i) < kernel_code_count(ls, n),
    decreases n - i,
{
    if i + 1 < n {
        lemma_count_below(ls, i, n - 1);
    }
}

/// A kernel symbol list yields one symbol for each code line (type `t` or
/// `T`), in the order of the lines: the symbol of a code line comes after
/// those of the code lines before it, starts at the line's address, ends
/// just below the next line's address (at the top of the address space
/// for the last line or a hidden address 0), and is named by the line's
/// name (with its module); every symbol is the symbol of some code line.
pub proof fn lemma_kernel_symbols_follow_lines(ls: Seq<Seq<char>>)
    ensures
        kernel_symbols(ls).len() == kernel_code_count(ls, ls.len() as int),
        forall|i: int|
            0 <= i < ls.len() && kallsyms_is_code(ls[i]) ==> #[trigger] kernel_symbols(ls)[kernel_code_count(ls, i) as int]
                == kernel_entry(ls, i),
        forall|k: int| 0 <= k < kernel_symbols(ls).len() ==> #[trigger] kernel_symbol_line(ls, ls.len() as int, k),
{
    lemma_kernel_symbols_upto(ls, ls.len() as int);
}

/// Rows of symbols and a pass over them.
pub struct SymbolRows {
    rows: Vec<SymbolRow>,
    position: usize,
    ended: bool,
    calls: Ghost<Seq<ReaderCall>>,
}

impl SymbolRows {
    /// The calls made on the reader that holds these rows.
    pub closed spec fn log(&self) -> Seq<ReaderCall> {
        self.calls@
    }

    /// The entries the rows stand for.
    pub closed spec fn entries(&self) -> Seq<SymbolEntry> {
        row_entries(self.rows@)
    }

    /// Rows passed over; one past their number when the pass has ended.
    pub closed spec fn pos(&self) -> int {
        if self.ended {
            self.rows@.len() + 1int
        } else {
            self.position as int
        }
    }

    /// Rows carry no demangled names.
    pub proof fn lemma_no_demangled(&self)
        ensures
            forall|i: int| 0 <= i < self.entries().len() ==> (#[trigger] self.entries()[i]).demangled is None,
    {
    }

    /// A pass over `rows` that begins at the first one when `started`, and
    /// that has to be reset first otherwise.
    pub fn new(rows: Vec<SymbolRow>, started: bool) -> (r: Self)
        ensures
            r.entries() == row_entries(rows@),
            r.pos() == if started { 0 } else { rows@.len() + 1 },
            r.log() == Seq::<ReaderCall>::empty(),
    {
        SymbolRows { rows, position: 0, ended: !started, calls: Ghost(Seq::empty()) }
    }

    pub fn reset(&mut self)
        ensures
            final(self).entries() == old(self).entries(),
            final(self).pos() == 0,
            final(self).log() == old(self).log().push(ReaderCall::Reset),
    {
        self.position = 0;
        self.ended = false;
        proof {
            self.calls@ = self.calls@.push(ReaderCall::Reset);
        }
    }

    /// Records a call of `demangle` on the reader that holds these rows.
    fn note_demangle(&mut self)
        ensures
            final(self).entries() == old(self).entries(),
            final(self).pos() == old(self).pos(),
            final(self).log() == old(self).log().push(ReaderCall::Demangle),
    {
        proof {
            self.calls@ = self.calls@.push(ReaderCall::Demangle);
        }
    }

    pub fn next(&mut self) -> (r: bool)
        ensures
            final(self).entries() == old(self).entries(),
            r == (0 <= old(self).pos() < old(self).entries().len()),
            r ==> final(self).pos() == old(self).pos() + 1,
            !r ==> final(self).pos() == final(self).entries().len() + 1,
            final(self).log() == old(self).log().push(ReaderCall::Next),
    {
        proof {
            self.calls@ = self.calls@.push(ReaderCall::Next);
        }
        if !self.ended && self.position < self.rows.len() {
            self.position = self.position + 1;
            true
        } else {
            self.ended = true;
            false
        }
    }

    /// The current row: the last one passed over, if the pass is on one.
    fn current(&self) -> (r: Option<&SymbolRow>)
        ensures
            0 < self.pos() <= self.entries().len() ==> (r matches Some(row) && row_entry(*row) == self.entries()[self.pos()
                - 1]),
            !(0 < self.pos() <= self.entries().len()) ==> r is None,
    {
        if !self.ended && self.position > 0 && self.position <= self.rows.len() {
            let p = self.position - 1;
            assert(row_entries(self.rows@)[p as int] == row_entry(self.rows@[p as int]));
            Some(&self.rows[p])
        } else {
            None
        }
    }

    pub fn start(&self) -> (r: u64)
        ensures
            0 < self.pos() <= self.entries().len() ==> r == self.entries()[self.pos() - 1].start,
            !(0 < self.pos() <= self.entries().len()) ==> r == 0,
    {
        match self.current() {
            Some(row) => row.start,
            None => 0,
        }
    }

    pub fn end(&self) -> (r: u64)
        ensures
            0 < self.pos() <= self.entries().len() ==> r == self.entries()[self.pos() - 1].end,
            !(0 < self.pos() <= self.entries().len()) ==> r == 0,
    {
        match self.current() {
            Some(row) => row.end,
            None => 0,
        }
    }

    pub fn name(&self) -> (r: &str)
        ensures
            0 < self.pos() <= self.entries().len() ==> r@ == self.entries()[self.pos() - 1].name,
            !(0 < self.pos() <= self.entries().len()) ==> r@ == Seq::<char>::empty(),
    {
        proof {
            reveal_strlit("");
        }
        match self.current() {
            Some(row) => row.name.as_str(),
            None => "",
        }
    }
}

/// Reads the code symbols of a kernel symbol list, in the format of
/// `/proc/kallsyms`, whose lines it is handed.
pub struct KernelSymbolReader {
    rows: SymbolRows,
}

impl KernelSymbolReader {
    /// A reader with no lines yet.
    pub fn new() -> (r: Self)
        ensures
            r.symbols() == Seq::<SymbolEntry>::empty(),
            r.position() == 1,
            r.calls() == Seq::<ReaderCall>::empty(),
    {
        let rows = SymbolRows::new(Vec::new(), false);
        assert(rows.entries() =~= Seq::<SymbolEntry>::empty());
        KernelSymbolReader { rows }
    }

    /// Reads `lines` from the start.
    pub fn set_lines(&mut self, lines: Vec<String>)
        requires
            kernel_lines_ok(line_views(lines@)),
        ensures
            final(self).symbols() == kernel_symbols(line_views(lines@)),
            final(self).position() == 0,
            final(self).calls() == old(self).calls(),
            final(self).symbols().len() == kernel_code_count(line_views(lines@), lines@.len() as int),
            forall|i: int|
                0 <= i < lines@.len() && kallsyms_is_code(line_views(lines@)[i]) ==> #[trigger] final(self).symbols()[kernel_code_count(
                    line_views(lines@),
                    i,
                ) as int] == kernel_entry(line_views(lines@), i),
            forall|k: int|
                0 <= k < final(self).symbols().len() ==> #[trigger] kernel_symbol_line(line_views(lines@), lines@.len() as int, k),
    {
        let ghost ls = line_views(lines@);
        let n = lines.len();
        let mut parsed: Vec<(u64, bool, String)> = Vec::new();
        let mut i: usize = 0;
        while i < n
            invariant
                i <= n,
                n == lines@.len(),
                ls == line_views(lines@),
                kernel_lines_ok(ls),
                parsed@.len() == i,
                forall|j: int| 0 <= j < i ==> {
                    &&& (#[trigger] parsed@[j]).0 == kallsyms_addr(ls[j])
                    &&& parsed@[j].1 == kallsyms_is_code(ls[j])
                    &&& parsed@[j].2@ == kallsyms_name(ls[j])
                },
            decreases n - i,
        {
            assert(ls[i as int] == lines@[i as int]@);
            assert(kallsyms_line_ok(ls[i as int]));
            let p = parse_kallsyms_line(lines[i].as_str());
            parsed.push(p);
            i = i + 1;
        }
        let mut rows: Vec<SymbolRow> = Vec::new();
        let mut k: usize = 0;
        while k < n
            invariant
                k <= n,
                n == ls.len(),
                parsed@.len() == n,
                kernel_lines_ok(ls),
                forall|j: int| 0 <= j < n ==> {
                    &&& (#[trigger] parsed@[j]).0 == kallsyms_addr(ls[j])
                    &&& parsed@[j].1 == kallsyms_is_code(ls[j])
                    &&& parsed@[j].2@ == kallsyms_name(ls[j])
                },
                row_entries(rows@) == kernel_symbols_upto(ls, k as int),
            decreases n - k,
        {
            if parsed[k].1 {
                let start = parsed[k].0;
                let end = if start != 0 && k + 1 < n {
                    assert(kallsyms_is_code(ls[k as int]));
                    parsed[k + 1].0 - 1
                } else {
                    u64::MAX
                };
                let name = parsed[k].2.clone();
                let ghost before = rows@;
                rows.push(SymbolRow { start, end, name });
                assert(row_entries(rows@) =~= row_entries(before).push(kernel_entry(ls, k as int)));
            }
            k = k + 1;
        }
        let ghost log = self.rows.log();
        self.rows = SymbolRows::new(rows, true);
        proof {
            self.rows.calls@ = log;
            lemma_kernel_symbols_follow_lines(ls);
        }
    }
}

impl ExportSymbolReader for KernelSymbolReader {
    closed spec fn symbols(&self) -> Seq<SymbolEntry> {
        self.rows.entries()
    }

    closed spec fn position(&self) -> int {
        self.rows.pos()
    }

    closed spec fn calls(&self) -> Seq<ReaderCall> {
        self.rows.log()
    }

    fn reset(&mut self) {
        self.rows.reset();
    }

    fn next(&mut self) -> (r: bool) {
        self.rows.next()
    }

    fn start(&self) -> (r: u64) {
        self.rows.start()
    }

    fn end(&self) -> (r: u64) {
        self.rows.end()
    }

    fn name(&self) -> (r: &str) {
        self.rows.name()
    }

    fn demangle(&mut self) -> (r: Option<String>)
        ensures
            r is None,
    {
        proof {
            self.rows.lemma_no_demangled();
        }
        self.rows.note_demangle();
        None
    }
}

/// The starts of the lines' symbols plus their sizes fit in 64 bits.
pub open spec fn perf_map_lines_ok(ls: Seq<Seq<char>>) -> bool {
    forall|i: int|
        0 <= i < ls.len() ==> match #[trigger] perf_map_line(ls[i]) {
            Some(v) => v.0 + v.1 <= u64::MAX,
            None => true,
        }
}

/// The symbols of the first `n` lines of a perf map: one for each line
/// whose start and size parse, ending at start plus size.
pub open spec fn perf_map_symbols_upto(ls: Seq<Seq<char>>, n: int) -> Seq<SymbolEntry>
    decreases n,
{
    if n <= 0 {
        Seq::empty()
    } else {
        match perf_map_line(ls[n - 1]) {
            Some(v) => perf_map_symbols_upto(ls, n - 1).push(
                SymbolEntry { start: v.0, end: (v.0 + v.1) as u64, name: v.2, demangled: None },
            ),
            None => perf_map_symbols_upto(ls, n - 1),
        }
    }
}

/// The symbols of a perf map.
pub open spec fn perf_map_symbols(ls: Seq<Seq<char>>) -> Seq<SymbolEntry> {
    perf_map_symbols_upto(ls, ls.len() as int)
}

/// The symbol of a perf-map line whose start and size parse.
pub open spec fn perf_map_entry(l: Seq<char>) -> SymbolEntry {
    let v = perf_map_line(l)->Some_0;
    SymbolEntry { start: v.0, end: (v.0 + v.1) as u64, name: v.2, demangled: None }
}

/// The number of lines among the first `n` whose start and size parse.
pub open spec fn perf_map_count(ls: Seq<Seq<char>>, n: int) -> nat
    decreases n,
{
    if n <= 0 {
        0
    } else {
        perf_map_count(ls, n - 1) + if perf_map_line(ls[n - 1]) is Some { 1nat } else { 0nat }
    }
}

/// Symbol `k` comes from one of the first `n` lines: a well-formed line
/// with `k` well-formed lines before it.
pub open spec fn perf_map_symbol_line(ls: Seq<Seq<char>>, n: int, k: int) -> bool {
    exists|i: int| 0 <= i < n && perf_map_line(ls[i]) is Some && #[trigger] perf_map_count(ls, i) == k
}

proof fn lemma_perf_map_count_below(ls: Seq<Seq<char>>, i: int, n: int)
    requires
        0 <= i < n <= ls.len(),
        perf_map_line(ls[i]) is Some,
    ensures
        perf_map_count(ls, i) < perf_map_count(ls, n),
    decreases n - i,
{
    if i + 1 < n {
        lemma_perf_map_count_below(ls, i, n - 1);
    }
}

proof fn lemma_perf_map_symbols_upto(ls: Seq<Seq<char>>, n: int)
    requires
        0 <= n <= ls.len(),
    ensures
        perf_map_symbols_upto(ls, n).len() == perf_map_count(ls, n),
        forall|i: int|
            0 <= i < n && perf_map_line(ls[i]) is Some ==> #[trigger] perf_map_symbols_upto(ls, n)[perf_map_count(ls, i) as int]
                == perf_map_entry(ls[i]),
        forall|k: int| 0 <= k < perf_map_count(ls, n) ==> #[trigger] perf_map_symbol_line(ls, n, k),
    decreases n,
{
    if n > 0 {
        lemma_perf_map_symbols_upto(ls, n - 1);
        let c = perf_map_count(ls, n - 1);
        assert forall|k: int| 0 <= k < perf_map_count(ls, n) implies #[trigger] perf_map_symbol_line(ls, n, k) by {
            if k == c {
                assert(perf_map_line(ls[n - 1]) is Some && perf_map_count(ls, n - 1) == k);
            } else {
                assert(perf_map_symbol_line(ls, n - 1, k));
                let i = choose|i: int| 0 <= i < n - 1 && perf_map_line(ls[i]) is Some && #[trigger] perf_map_count(ls, i) == k;
            }
        }
        assert forall|i: int| 0 <= i < n - 1 && perf_map_line(ls[i]) is Some implies #[trigger] perf_map_symbols_upto(ls, n)[perf_map_count(ls, i) as int]
            == perf_map_entry(ls[i]) by {
            lemma_perf_map_count_below(ls, i, n - 1);
            assert(perf_map_symbols_upto(ls, n - 1)[perf_map_count(ls, i) as int] == perf_map_entry(ls[i]));
        }
    }
}

/// A perf map yields one symbol for each line whose start and size are
/// hexadecimal (the start with an optional `0x`), in the order of the
/// lines, skipping the others: the symbol of such a line comes after those
/// of the well-formed lines before it, starts at the line's start, ends at
/// start plus size, and is named by the rest of the line up to its first
/// NUL and without its line end; every symbol is the symbol of some
/// well-formed line.
pub proof fn lemma_perf_map_symbols_follow_lines(ls: Seq<Seq<char>>)
    ensures
        perf_map_symbols(ls).len() == perf_map_count(ls, ls.len() as int),
        forall|i: int|
            0 <= i < ls.len() && perf_map_line(ls[i]) is Some ==> #[trigger] perf_map_symbols(ls)[perf_map_count(ls, i) as int]
                == perf_map_entry(ls[i]),
        forall|k: int| 0 <= k < perf_map_symbols(ls).len() ==> #[trigger] perf_map_symbol_line(ls, ls.len() as int, k),
{
    lemma_perf_map_symbols_upto(ls, ls.len() as int);
}

/// Reads the symbols of a perf map (`/tmp/perf-<pid>.map`), skipping lines
/// whose start or size is not hexadecimal.
pub struct PerfMapSymbolReader {
    rows: SymbolRows,
}

impl PerfMapSymbolReader {
    /// A reader of `lines`; reading begins after `reset`.
    pub fn new(lines: Vec<String>) -> (r: Self)
        requires
            perf_map_lines_ok(line_views(lines@)),
        ensures
            r.symbols() == perf_map_symbols(line_views(lines@)),
            r.position() == r.symbols().len() + 1,
            r.calls() == Seq::<ReaderCall>::empty(),
            r.symbols().len() == perf_map_count(line_views(lines@), lines@.len() as int),
            forall|i: int|
                0 <= i < lines@.len() && perf_map_line(line_views(lines@)[i]) is Some ==> #[trigger] r.symbols()[perf_map_count(
                    line_views(lines@),
                    i,
                ) as int] == perf_map_entry(line_views(lines@)[i]),
            forall|k: int|
                0 <= k < r.symbols().len() ==> #[trigger] perf_map_symbol_line(line_views(lines@), lines@.len() as int, k),
    {
        let ghost ls = line_views(lines@);
        let n = lines.len();
        let mut rows: Vec<SymbolRow> = Vec::new();
        let mut i: usize = 0;
        while i < n
            invariant
                i <= n,
                n == lines@.len(),
                ls == line_views(lines@),
                perf_map_lines_ok(ls),
                row_entries(rows@) == perf_map_symbols_upto(ls, i as int),
            decreases n - i,
        {
            assert(ls[i as int] == lines@[i as int]@);
            match parse_perf_map_line(lines[i].as_str()) {
                Some((start, size, name)) => {
                    let ghost parsed = perf_map_line(ls[i as int]);
                    let ghost pname = match parsed {
                        Some(v) => v.2,
                        None => Seq::empty(),
                    };
                    let ghost before = rows@;
                    rows.push(SymbolRow { start, end: start + size, name });
                    assert(row_entries(rows@) =~= row_entries(before).push(
                        SymbolEntry { start, end: (start + size) as u64, name: pname, demangled: None },
                    ));
                },
                None => {},
            }
            i = i + 1;
        }
        proof {
            lemma_perf_map_symbols_follow_lines(ls);
        }
        PerfMapSymbolReader { rows: SymbolRows::new(rows, false) }
    }
}

impl ExportSymbolReader for PerfMapSymbolReader {
    closed spec fn symbols(&self) -> Seq<SymbolEntry> {
        self.rows.entries()
    }

    closed spec fn position(&self) -> int {
        self.rows.pos()
    }

    closed spec fn calls(&self) -> Seq<ReaderCall> {
        self.rows.log()
    }

    fn reset(&mut self) {
        self.rows.reset();
    }

    fn next(&mut self) -> (r: bool) {
        self.rows.next()
    }

    fn start(&self) -> (r: u64) {
        self.rows.start()
    }

    fn end(&self) -> (r: u64) {
        self.rows.end()
    }

    fn name(&self) -> (r: &str) {
        self.rows.name()
    }

    fn demangle(&mut self) -> (r: Option<String>)
        ensures
            r is None,
    {
        proof {
            self.rows.lemma_no_demangled();
        }
        self.rows.note_demangle();
        None
    }
}

/// Start the header of an R2R map gives to the line that carries the
/// signature.
pub const R2R_SIGNATURE_RVA: u64 = 0xFFFFFFFF;

/// Largest start of a symbol of an R2R map; larger ones are header entries.
pub const R2R_MAX_SYMBOL_RVA: u64 = 0xFFFFFFF0;

/// The first line at or after `i` that carries the signature, or the
/// number of lines.
pub open spec fn r2r_signature_line_from(ls: Seq<Seq<char>>, i: int) -> int
    decreases ls.len() - i,
{
    if i < 0 || i >= ls.len() {
        ls.len() as int
    } else if r2r_start(ls[i]) == R2R_SIGNATURE_RVA {
        i
    } else {
        r2r_signature_line_from(ls, i + 1)
    }
}

/// The symbols of lines `lo..n` of an R2R map: those that are no header
/// entry.
pub open spec fn r2r_symbols_range(ls: Seq<Seq<char>>, lo: int, n: int) -> Seq<SymbolEntry>
    decreases n - lo,
{
    if n <= lo {
        Seq::empty()
    } else if r2r_start(ls[n - 1]) <= R2R_MAX_SYMBOL_RVA {
        r2r_symbols_range(ls, lo, n - 1).push(
            SymbolEntry { start: r2r_start(ls[n - 1]), end: r2r_end(ls[n - 1]), name: r2r_name(ls[n - 1]), demangled: None },
        )
    } else {
        r2r_symbols_range(ls, lo, n - 1)
    }
}

/// The symbols of an R2R map: those after the signature line; none when
/// there is no signature line.
pub open spec fn r2r_symbols(ls: Seq<Seq<char>>) -> Seq<SymbolEntry> {
    let s = r2r_signature_line_from(ls, 0);
    if s >= ls.len() {
        Seq::empty()
    } else {
        r2r_symbols_range(ls, s + 1, ls.len() as int)
    }
}

/// The signature of an R2R map: what its signature line's name writes, or
/// zeros.
pub open spec fn r2r_map_signature(ls: Seq<Seq<char>>) -> Seq<u8> {
    let s = r2r_signature_line_from(ls, 0);
    if s >= ls.len() {
        Seq::new(16, |i: int| 0u8)
    } else {
        r2r_signature(r2r_name(ls[s]))
    }
}

proof fn lemma_r2r_signature_line_from(ls: Seq<Seq<char>>, i: int)
    requires
        0 <= i <= ls.len(),
    ensures
        i <= r2r_signature_line_from(ls, i) <= ls.len(),
        forall|k: int| i <= k < r2r_signature_line_from(ls, i) ==> r2r_start(#[trigger] ls[k]) != R2R_SIGNATURE_RVA,
        r2r_signature_line_from(ls, i) < ls.len() ==> r2r_start(ls[r2r_signature_line_from(ls, i)]) == R2R_SIGNATURE_RVA,
    decreases ls.len() - i,
{
    if i < ls.len() && r2r_start(ls[i]) != R2R_SIGNATURE_RVA {
        lemma_r2r_signature_line_from(ls, i + 1);
    }
}

/// Reads the symbols of an R2R map of a ready-to-run image, after its
/// header.
pub struct R2RMapSymbolReader {
    rows: SymbolRows,
    file_signature: [u8; 16],
    signature: [u8; 16],
}

impl R2RMapSymbolReader {
    /// The signature the map's header gives.
    pub closed spec fn map_signature(&self) -> Seq<u8> {
        self.file_signature@
    }

    /// The signature as read so far: zeros until the first `reset`.
    pub closed spec fn spec_signature(&self) -> Seq<u8> {
        self.signature@
    }

    /// A reader of `lines`; reading begins after `reset`.
    pub fn new(lines: Vec<String>) -> (r: Self)
        requires
            forall|i: int| 0 <= i < lines@.len() ==> r2r_line_ok(#[trigger] lines@[i]@),
        ensures
            r.symbols() == r2r_symbols(line_views(lines@)),
            r.map_signature() == r2r_map_signature(line_views(lines@)),
            r.spec_signature() == Seq::new(16, |i: int| 0u8),
            r.position() == r.symbols().len() + 1,
            r.calls() == Seq::<ReaderCall>::empty(),
    {
        let ghost ls = line_views(lines@);
        let n = lines.len();
        let mut parsed: Vec<(u64, u64, String)> = Vec::new();
        let mut i: usize = 0;
        while i < n
            invariant
                i <= n,
                n == lines@.len(),
                ls == line_views(lines@),
                forall|j: int| 0 <= j < lines@.len() ==> r2r_line_ok(#[trigger] lines@[j]@),
                parsed@.len() == i,
                forall|j: int| 0 <= j < i ==> {
                    &&& (#[trigger] parsed@[j]).0 == r2r_start(ls[j])
                    &&& parsed@[j].1 == r2r_end(ls[j])
                    &&& parsed@[j].2@ == r2r_name(ls[j])
                },
            decreases n - i,
        {
            assert(ls[i as int] == lines@[i as int]@);
            let p = parse_r2r_line(lines[i].as_str());
            parsed.push(p);
            i = i + 1;
        }
        proof {
            lemma_r2r_signature_line_from(ls, 0);
        }
        let mut s: usize = 0;
        while s < n && parsed[s].0 != R2R_SIGNATURE_RVA
            invariant
                s <= n,
                n == ls.len(),
                parsed@.len() == n,
                forall|j: int| 0 <= j < n ==> (#[trigger] parsed@[j]).0 == r2r_start(ls[j]),
                r2r_signature_line_from(ls, s as int) == r2r_signature_line_from(ls, 0),
            decreases n - s,
        {
            s = s + 1;
        }
        let zeros = [0u8; 16];
        assert(zeros@ =~= Seq::new(16, |i: int| 0u8));
        if s == n {
            let rows: Vec<SymbolRow> = Vec::new();
            assert(row_entries(rows@) =~= r2r_symbols(ls));
            return R2RMapSymbolReader { rows: SymbolRows::new(rows, false), file_signature: zeros, signature: zeros };
        }
        let file_signature = parse_r2r_signature(parsed[s].2.as_str());
        let mut rows: Vec<SymbolRow> = Vec::new();
        let mut k: usize = s + 1;
        while k < n
            invariant
                s < k <= n,
                n == ls.len(),
                parsed@.len() == n,
                forall|j: int| 0 <= j < n ==> {
                    &&& (#[trigger] parsed@[j]).0 == r2r_start(ls[j])
                    &&& parsed@[j].1 == r2r_end(ls[j])
                    &&& parsed@[j].2@ == r2r_name(ls[j])
                },
                row_entries(rows@) == r2r_symbols_range(ls, s + 1, k as int),
            decreases n - k,
        {
            if parsed[k].0 <= R2R_MAX_SYMBOL_RVA {
                let name = parsed[k].2.clone();
                let ghost before = rows@;
                rows.push(SymbolRow { start: parsed[k].0, end: parsed[k].1, name });
                assert(row_entries(rows@) =~= row_entries(before).push(
                    SymbolEntry { start: r2r_start(ls[k as int]), end: r2r_end(ls[k as int]), name: r2r_name(ls[k as int]), demangled: None },
                ));
            }
            k = k + 1;
        }
        R2RMapSymbolReader { rows: SymbolRows::new(rows, false), file_signature, signature: zeros }
    }

    /// The signature of the image the map describes, as the last `reset`
    /// read it from the header.
    pub fn signature(&self) -> (r: &[u8; 16])
        ensures
            r@ == self.spec_signature(),
    {
        &self.signature
    }
}

impl ExportSymbolReader for R2RMapSymbolReader {
    closed spec fn symbols(&self) -> Seq<SymbolEntry> {
        self.rows.entries()
    }

    closed spec fn position(&self) -> int {
        self.rows.pos()
    }

    closed spec fn calls(&self) -> Seq<ReaderCall> {
        self.rows.log()
    }

    /// Also reads the signature from the header.
    fn reset(&mut self)
        ensures
            final(self).spec_signature() == old(self).map_signature(),
            final(self).map_signature() == old(self).map_signature(),
    {
        self.rows.reset();
        self.signature = self.file_signature;
    }

    fn next(&mut self) -> (r: bool)
        ensures
            final(self).spec_signature() == old(self).spec_signature(),
            final(self).map_signature() == old(self).map_signature(),
    {
        self.rows.next()
    }

    fn start(&self) -> (r: u64) {
        self.rows.start()
    }

    fn end(&self) -> (r: u64) {
        self.rows.end()
    }

    fn name(&self) -> (r: &str) {
        self.rows.name()
    }

    fn demangle(&mut self) -> (r: Option<String>)
        ensures
            r is None,
    {
        proof {
            self.rows.lemma_no_demangled();
        }
        self.rows.note_demangle();
        None
    }
}

/// The symbols of an R2R map seen from a section's mapping: moved down by
/// the distance from the image's base mapping to that mapping.
pub open spec fn shifted_symbols(syms: Seq<SymbolEntry>, offset: u64) -> Seq<SymbolEntry> {
    syms.map_values(
        |e: SymbolEntry|
            SymbolEntry { start: e.start.wrapping_sub(offset), end: e.end.wrapping_sub(offset), ..e },
    )
}

/// Yields the symbols of an R2R map with addresses relative to the start
/// of the mapping of one of the image's sections: the map's addresses are
/// relative to the image's base mapping, `offset` bytes lower.
pub struct R2RLoadedLayoutSymbolTransformer {
    sym_reader: R2RMapSymbolReader,
    offset: u64,
}

impl R2RLoadedLayoutSymbolTransformer {
    pub fn new(sym_reader: R2RMapSymbolReader, offset: u64) -> (r: Self)
        ensures
            r.symbols() == shifted_symbols(sym_reader.symbols(), offset),
            r.position() == sym_reader.position(),
            r.calls() == sym_reader.calls(),
    {
        R2RLoadedLayoutSymbolTransformer { sym_reader, offset }
    }
}

impl ExportSymbolReader for R2RLoadedLayoutSymbolTransformer {
    closed spec fn symbols(&self) -> Seq<SymbolEntry> {
        shifted_symbols(self.sym_reader.symbols(), self.offset)
    }

    closed spec fn position(&self) -> int {
        self.sym_reader.position()
    }

    closed spec fn calls(&self) -> Seq<ReaderCall> {
        self.sym_reader.calls()
    }

    fn reset(&mut self) {
        self.sym_reader.reset();
    }

    fn next(&mut self) -> (r: bool) {
        self.sym_reader.next()
    }

    fn start(&self) -> (r: u64) {
        self.sym_reader.start().wrapping_sub(self.offset)
    }

    fn end(&self) -> (r: u64) {
        self.sym_reader.end().wrapping_sub(self.offset)
    }

    fn name(&self) -> (r: &str) {
        self.sym_reader.name()
    }

    fn demangle(&mut self) -> (r: Option<String>)
        ensures
            r is None,
    {
        self.sym_reader.demangle()
    }
}

/// A symbol of an ELF image's symbol tables, with its demangled name when
/// it has one.
pub struct ElfSymbol {
    pub start: u64,
    pub end: u64,
    pub name: String,
    pub demangled: Option<String>,
}

/// The entry of an ELF symbol.
pub open spec fn elf_entry(s: ElfSymbol) -> SymbolEntry {
    SymbolEntry {
        start: s.start,
        end: s.end,
        name: s.name@,
        demangled: match s.demangled {
            Some(d) => Some(d@),
            None => None,
        },
    }
}

/// Reads the symbols of an ELF image, in the order of its symbol tables.
pub struct ElfSymbolReader {
    symbols: Vec<ElfSymbol>,
    position: usize,
    valid: bool,
    ended: bool,
    calls: Ghost<Seq<ReaderCall>>,
}

impl ElfSymbolReader {
    /// A reader of `symbols`, read from the image's symbol tables.
    pub fn new(symbols: Vec<ElfSymbol>) -> (r: Self)
        ensures
            r.symbols() == symbols@.map_values(|s: ElfSymbol| elf_entry(s)),
            r.position() == 0,
            r.calls() == Seq::<ReaderCall>::empty(),
    {
        ElfSymbolReader { symbols, position: 0, valid: false, ended: false, calls: Ghost(Seq::empty()) }
    }

    /// The current symbol, if the reader is on one.
    fn current(&self) -> (r: Option<&ElfSymbol>)
        ensures
            0 < self.position() <= self.symbols().len() ==> (r matches Some(s) && elf_entry(*s) == self.symbols()[self.position() - 1]),
            !(0 < self.position() <= self.symbols().len()) ==> r is None,
    {
        if !self.ended && self.position > 0 && self.position <= self.symbols.len() {
            Some(&self.symbols[self.position - 1])
        } else {
            None
        }
    }
}

impl ExportSymbolReader for ElfSymbolReader {
    closed spec fn symbols(&self) -> Seq<SymbolEntry> {
        self.symbols@.map_values(|s: ElfSymbol| elf_entry(s))
    }

    closed spec fn position(&self) -> int {
        if self.ended {
            self.symbols@.len() + 1int
        } else {
            self.position as int
        }
    }

    closed spec fn calls(&self) -> Seq<ReaderCall> {
        self.calls@
    }

    fn reset(&mut self) {
        self.position = 0;
        self.ended = false;
        self.valid = false;
        proof {
            self.calls@ = self.calls@.push(ReaderCall::Reset);
        }
    }

    fn next(&mut self) -> (r: bool) {
        proof {
            self.calls@ = self.calls@.push(ReaderCall::Next);
        }
        if !self.ended && self.position < self.symbols.len() {
            self.position = self.position + 1;
            self.valid = true;
        } else {
            self.ended = true;
            self.valid = false;
        }
        self.valid
    }

    fn start(&self) -> (r: u64) {
        match self.current() {
            Some(s) => s.start,
            None => 0,
        }
    }

    fn end(&self) -> (r: u64) {
        match self.current() {
            Some(s) => s.end,
            None => 0,
        }
    }

    fn name(&self) -> (r: &str) {
        proof {
            reveal_strlit("");
        }
        match self.current() {
            Some(s) => s.name.as_str(),
            None => "",
        }
    }

    fn demangle(&mut self) -> (r: Option<String>) {
        proof {
            self.calls@ = self.calls@.push(ReaderCall::Demangle);
        }
        match self.current() {
            Some(s) => match &s.demangled {
                Some(d) => Some(d.clone()),
                None => None,
            },
            None => None,
        }
    }
}

} // verus!
