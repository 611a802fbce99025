//! The text formats of symbol files: white-space separated fields, fields
//! separated by single spaces, and hexadecimal numbers.

use vstd::prelude::*;

verus! {

broadcast use vstd::string::axiom_spec_iter;

/// The characters of `s`, for indexing in constant time.
pub fn chars_of(s: &str) -> (v: Vec<char>)
    ensures
        v@ == s@,
{
    let mut v: Vec<char> = Vec::new();
    for c in it: s.chars()
        invariant
            v@ == it.seq().take(it.index() as int),
    {
        v.push(c);
    }
    v
}

/// `c` is white space as Unicode defines it (what `char::is_whitespace`
/// tests).
pub open spec fn is_ws(c: char) -> bool {
    ||| c == ' '
    ||| ('\t' <= c && c <= '\r')
    ||| c == '\u{85}'
    ||| c == '\u{a0}'
    ||| c == '\u{1680}'
    ||| ('\u{2000}' <= c && c <= '\u{200a}')
    ||| c == '\u{2028}'
    ||| c == '\u{2029}'
    ||| c == '\u{202f}'
    ||| c == '\u{205f}'
    ||| c == '\u{3000}'
}

pub fn is_whitespace(c: char) -> (r: bool)
    ensures
        r == is_ws(c),
{
    c == ' ' || ('\t' <= c && c <= '\r') || c == '\u{85}' || c == '\u{a0}' || c == '\u{1680}' || ('\u{2000}' <= c
        && c <= '\u{200a}') || c == '\u{2028}' || c == '\u{2029}' || c == '\u{202f}' || c == '\u{205f}' || c
        == '\u{3000}'
}

/// Where the run of non-white-space characters that starts at `i` ends.
pub open spec fn run_end(s: Seq<char>, i: int) -> int
    decreases s.len() - i,
{
    if i < 0 || i >= s.len() || is_ws(s[i]) {
        i
    } else {
        run_end(s, i + 1)
    }
}

/// The white-space separated words of `s` from `i` on.
pub open spec fn words_from(s: Seq<char>, i: int) -> Seq<Seq<char>>
    decreases s.len() - i,
{
    if i < 0 || i >= s.len() {
        Seq::empty()
    } else if is_ws(s[i]) {
        words_from(s, i + 1)
    } else {
        let j = run_end(s, i);
        if j <= i || j > s.len() {
            Seq::empty()
        } else {
            seq![s.subrange(i, j)] + words_from(s, j)
        }
    }
}

/// The white-space separated words of `s`, as `str::split_whitespace`
/// yields them.
pub open spec fn words(s: Seq<char>) -> Seq<Seq<char>> {
    words_from(s, 0)
}

proof fn lemma_run_end_bounds(s: Seq<char>, i: int)
    requires
        0 <= i <= s.len(),
    ensures
        i <= run_end(s, i) <= s.len(),
        forall|k: int| i <= k < run_end(s, i) ==> !is_ws(#[trigger] s[k]),
        run_end(s, i) < s.len() ==> is_ws(s[run_end(s, i)]),
    decreases s.len() - i,
{
    if i < s.len() && !is_ws(s[i]) {
        lemma_run_end_bounds(s, i + 1);
    }
}

/// The start and end of each white-space separated word of `cs`.
pub fn word_ranges(cs: &[char]) -> (r: Vec<(usize, usize)>)
    ensures
        r@.len() == words(cs@).len(),
        forall|k: int| 0 <= k < r@.len() ==> {
            &&& (#[trigger] r@[k]).0 < r@[k].1 <= cs@.len()
            &&& cs@.subrange(r@[k].0 as int, r@[k].1 as int) == words(cs@)[k]
        },
{
    let ghost s = cs@;
    let n = cs.len();
    let mut r: Vec<(usize, usize)> = Vec::new();
    let mut i: usize = 0;
    while i < n
        invariant
            i <= n,
            n == s.len(),
            s == cs@,
            words(s) == r@.map_values(|p: (usize, usize)| s.subrange(p.0 as int, p.1 as int)) + words_from(s, i as int),
            forall|k: int| 0 <= k < r@.len() ==> (#[trigger] r@[k]).0 < r@[k].1 <= i,
        decreases n - i,
    {
        if is_whitespace(cs[i]) {
            assert(words_from(s, i as int) == words_from(s, i + 1));
            i = i + 1;
        } else {
            let start = i;
            proof {
                lemma_run_end_bounds(s, i as int);
            }
            while i < n && !is_whitespace(cs[i])
                invariant
                    start <= i <= n,
                    n == s.len(),
                    s == cs@,
                    start < n,
                    !is_ws(s[start as int]),
                    run_end(s, start as int) == run_end(s, i as int),
                decreases n - i,
            {
                i = i + 1;
            }
            proof {
                lemma_run_end_bounds(s, start as int);
                assert(run_end(s, i as int) == i);
                assert(i > start);
                let old_r = r@;
                assert(words_from(s, start as int) == seq![s.subrange(start as int, i as int)] + words_from(s, i as int));
            }
            let ghost before = r@;
            r.push((start, i));
            proof {
                let f = |p: (usize, usize)| s.subrange(p.0 as int, p.1 as int);
                assert(r@.map_values(f) =~= before.map_values(f).push(s.subrange(start as int, i as int)));
                assert(words(s) =~= r@.map_values(f) + words_from(s, i as int));
            }
        }
    }
    proof {
        let f = |p: (usize, usize)| s.subrange(p.0 as int, p.1 as int);
        assert(words_from(s, i as int) == Seq::<Seq<char>>::empty());
        assert(words(s) =~= r@.map_values(f));
        assert forall|k: int| 0 <= k < r@.len() implies s.subrange(r@[k].0 as int, r@[k].1 as int) == words(s)[k] by {
            assert(r@.map_values(f)[k] == f(r@[k]));
        }
    }
    r
}

/// The value of a hexadecimal digit, or -1 for any other character.
pub open spec fn hex_digit(c: char) -> int {
    if '0' <= c && c <= '9' {
        c as int - '0' as int
    } else if 'a' <= c && c <= 'f' {
        c as int - 'a' as int + 10
    } else if 'A' <= c && c <= 'F' {
        c as int - 'A' as int + 10
    } else {
        -1
    }
}

/// Every character of `s` is a hexadecimal digit.
pub open spec fn all_hex(s: Seq<char>) -> bool {
    forall|i: int| 0 <= i < s.len() ==> hex_digit(#[trigger] s[i]) >= 0
}

/// The number that the hexadecimal digits `s` write.
pub open spec fn hex_value(s: Seq<char>) -> int
    decreases s.len(),
{
    if s.len() == 0 {
        0
    } else {
        hex_value(s.drop_last()) * 16 + hex_digit(s.last())
    }
}

/// What `u64::from_str_radix(s, 16)` gives: the value of the digits after
/// an optional `+`, when there is at least one, all are digits and the
/// value fits.
pub open spec fn parse_hex(s: Seq<char>) -> Option<u64> {
    let d = if s.len() > 0 && s[0] == '+' {
        s.drop_first()
    } else {
        s
    };
    if d.len() > 0 && all_hex(d) && hex_value(d) <= u64::MAX {
        Some(hex_value(d) as u64)
    } else {
        None
    }
}

/// What `u8::from_str_radix(s, 16)` gives.
pub open spec fn parse_hex_u8(s: Seq<char>) -> Option<u8> {
    match parse_hex(s) {
        Some(v) => if v <= 255 {
            Some(v as u8)
        } else {
            None
        },
        None => None,
    }
}

fn hex_digit_value(c: char) -> (r: Option<u64>)
    ensures
        r matches Some(v) ==> v == hex_digit(c) && 0 <= v < 16,
        r is None <==> hex_digit(c) < 0,
{
    if '0' <= c && c <= '9' {
        Some((c as u32 - '0' as u32) as u64)
    } else if 'a' <= c && c <= 'f' {
        Some((c as u32 - 'a' as u32 + 10) as u64)
    } else if 'A' <= c && c <= 'F' {
        Some((c as u32 - 'A' as u32 + 10) as u64)
    } else {
        None
    }
}

proof fn lemma_hex_value_nonneg(s: Seq<char>)
    requires
        all_hex(s),
    ensures
        hex_value(s) >= 0,
    decreases s.len(),
{
    if s.len() > 0 {
        assert(all_hex(s.drop_last()));
        lemma_hex_value_nonneg(s.drop_last());
        assert(hex_digit(s[s.len() - 1]) >= 0);
    }
}

/// A longer run of digits is worth at least as much as its prefix.
proof fn lemma_hex_value_prefix(s: Seq<char>, k: int)
    requires
        all_hex(s),
        0 <= k <= s.len(),
    ensures
        hex_value(s.take(k)) <= hex_value(s),
    decreases s.len() - k,
{
    if k < s.len() {
        lemma_hex_value_prefix(s, k + 1);
        let t = s.take(k + 1);
        assert(t.drop_last() =~= s.take(k));
        assert(all_hex(s.take(k)));
        lemma_hex_value_nonneg(s.take(k));
        assert(hex_digit(t.last()) >= 0) by {
            assert(t.last() == s[k]);
        }
    } else {
        assert(s.take(k) =~= s);
    }
}

/// `u64::from_str_radix` with radix 16 on `cs[from..to]`.
pub fn parse_hex_u64(cs: &[char], from: usize, to: usize) -> (r: Option<u64>)
    requires
        from <= to <= cs@.len(),
    ensures
        r == parse_hex(cs@.subrange(from as int, to as int)),
{
    let ghost s = cs@.subrange(from as int, to as int);
    let mut i = from;
    if i < to && cs[i] == '+' {
        i = i + 1;
    }
    let ghost d = cs@.subrange(i as int, to as int);
    assert(d =~= (if s.len() > 0 && s[0] == '+' { s.drop_first() } else { s }));
    if i == to {
        return None;
    }
    let start = i;
    let mut value: u64 = 0;
    while i < to
        invariant
            start <= i <= to,
            to <= cs@.len(),
            d == cs@.subrange(start as int, to as int),
            s == cs@.subrange(from as int, to as int),
            d == (if s.len() > 0 && s[0] == '+' { s.drop_first() } else { s }),
            d.len() > 0,
            all_hex(d.take(i - start)),
            value == hex_value(d.take(i - start)),
        decreases to - i,
    {
        let k = i - start;
        match hex_digit_value(cs[i]) {
            None => {
                assert(d[k as int] == cs@[i as int]);
                assert(!all_hex(d));
                return None;
            },
            Some(v) => {
                proof {
                    let t = d.take(k + 1);
                    assert(t.drop_last() =~= d.take(k as int));
                    assert(t.last() == cs@[i as int]);
                    assert(all_hex(t)) by {
                        assert forall|j: int| 0 <= j < t.len() implies hex_digit(#[trigger] t[j]) >= 0 by {
                            if j < k {
                                assert(t[j] == d.take(k as int)[j]);
                            }
                        }
                    }
                }
                if value > (u64::MAX - v) / 16 {
                    proof {
                        let t = d.take(k + 1);
                        assert(hex_value(t) > u64::MAX) by (nonlinear_arith)
                            requires
                                hex_value(t) == value * 16 + v,
                                value > (u64::MAX - v) / 16,
                                v < 16,
                        ;
                        if all_hex(d) {
                            lemma_hex_value_prefix(d, k + 1);
                        }
                    }
                    return None;
                }
                assert(value * 16 + v <= u64::MAX) by (nonlinear_arith)
                    requires
                        value <= (u64::MAX - v) / 16,
                        v < 16,
                ;
                value = value * 16 + v;
                i = i + 1;
            },
        }
    }
    assert(d.take(i - start) =~= d);
    Some(value)
}

/// The first place at or after `i` that holds `c`, or the length of `s`.
pub open spec fn find_from(s: Seq<char>, c: char, i: int) -> int
    decreases s.len() - i,
{
    if i < 0 || i >= s.len() {
        s.len() as int
    } else if s[i] == c {
        i
    } else {
        find_from(s, c, i + 1)
    }
}

proof fn lemma_find_from(s: Seq<char>, c: char, i: int)
    requires
        0 <= i <= s.len(),
    ensures
        i <= find_from(s, c, i) <= s.len(),
        forall|k: int| i <= k < find_from(s, c, i) ==> #[trigger] s[k] != c,
        find_from(s, c, i) < s.len() ==> s[find_from(s, c, i)] == c,
    decreases s.len() - i,
{
    if i < s.len() && s[i] != c {
        lemma_find_from(s, c, i + 1);
    }
}

/// `find_from` on characters held in a slice.
pub fn find_char(cs: &[char], c: char, from: usize) -> (r: usize)
    requires
        from <= cs@.len(),
    ensures
        r == find_from(cs@, c, from as int),
{
    let mut i = from;
    proof {
        lemma_find_from(cs@, c, from as int);
    }
    while i < cs.len() && cs[i] != c
        invariant
            from <= i <= cs@.len(),
            find_from(cs@, c, i as int) == find_from(cs@, c, from as int),
        decreases cs@.len() - i,
    {
        i = i + 1;
    }
    i
}

/// The pieces of `s` that `splitn(3, ' ')` yields.
pub open spec fn split3(s: Seq<char>) -> Seq<Seq<char>> {
    let p1 = find_from(s, ' ', 0);
    if p1 >= s.len() {
        seq![s]
    } else {
        let p2 = find_from(s, ' ', p1 + 1);
        if p2 >= s.len() {
            seq![s.subrange(0, p1), s.subrange(p1 + 1, s.len() as int)]
        } else {
            seq![s.subrange(0, p1), s.subrange(p1 + 1, p2), s.subrange(p2 + 1, s.len() as int)]
        }
    }
}

/// Where the pieces of `split3` start and end.
pub fn split3_ranges(cs: &[char]) -> (r: Vec<(usize, usize)>)
    ensures
        r@.len() == split3(cs@).len(),
        1 <= r@.len() <= 3,
        r@[r@.len() - 1].1 == cs@.len(),
        forall|k: int| 0 <= k < r@.len() ==> {
            &&& (#[trigger] r@[k]).0 <= r@[k].1 <= cs@.len()
            &&& cs@.subrange(r@[k].0 as int, r@[k].1 as int) == split3(cs@)[k]
        },
{
    let n = cs.len();
    proof {
        lemma_find_from(cs@, ' ', 0);
    }
    let p1 = find_char(cs, ' ', 0);
    let mut r: Vec<(usize, usize)> = Vec::new();
    if p1 == n {
        r.push((0, n));
        assert(cs@.subrange(0, n as int) =~= cs@);
        return r;
    }
    proof {
        lemma_find_from(cs@, ' ', p1 + 1);
    }
    let p2 = find_char(cs, ' ', p1 + 1);
    r.push((0, p1));
    if p2 == n {
        r.push((p1 + 1, n));
    } else {
        r.push((p1 + 1, p2));
        r.push((p2 + 1, n));
    }
    r
}

/// `s` without a leading `0x` or `0X`.
pub open spec fn strip_0x(s: Seq<char>) -> Seq<char> {
    if s.len() >= 2 && s[0] == '0' && (s[1] == 'x' || s[1] == 'X') {
        s.subrange(2, s.len() as int)
    } else {
        s
    }
}

/// `s` up to its first NUL character.
pub open spec fn until_nul(s: Seq<char>) -> Seq<char> {
    s.subrange(0, find_from(s, '\0', 0))
}

/// `s` without one trailing line feed and then one trailing carriage return.
pub open spec fn strip_eol(s: Seq<char>) -> Seq<char> {
    let a = if s.len() > 0 && s.last() == '\n' {
        s.drop_last()
    } else {
        s
    };
    if a.len() > 0 && a.last() == '\r' {
        a.drop_last()
    } else {
        a
    }
}

/// A parsed number, or 0 when there is none.
pub open spec fn or_zero(v: Option<u64>) -> u64 {
    match v {
        Some(x) => x,
        None => 0,
    }
}

/// The address of a line of `/proc/kallsyms` (0 for a line without words).
pub open spec fn kallsyms_addr(s: Seq<char>) -> u64 {
    let w = words(s);
    if w.len() > 0 {
        or_zero(parse_hex(w[0]))
    } else {
        0
    }
}

/// The line's symbol type starts with `t` or `T`: it names code.
pub open spec fn kallsyms_is_code(s: Seq<char>) -> bool {
    let w = words(s);
    w.len() > 1 && w[1].len() > 0 && (w[1][0] == 't' || w[1][0] == 'T')
}

/// The symbol's name: the module, a space and the method when a module is
/// given, else the method.
pub open spec fn kallsyms_name(s: Seq<char>) -> Seq<char> {
    let w = words(s);
    let method = if w.len() > 2 {
        w[2]
    } else {
        Seq::empty()
    };
    if w.len() > 3 {
        w[3] + seq![' '] + method
    } else {
        method
    }
}

/// The line's first word, if any, is a hexadecimal address.
pub open spec fn kallsyms_line_ok(s: Seq<char>) -> bool {
    words(s).len() > 0 ==> parse_hex(words(s)[0]) is Some
}

/// Address, whether it names code, and name of a line of `/proc/kallsyms`.
pub fn parse_kallsyms_line(line: &str) -> (r: (u64, bool, String))
    requires
        kallsyms_line_ok(line@),
    ensures
        r.0 == kallsyms_addr(line@),
        r.1 == kallsyms_is_code(line@),
        r.2@ == kallsyms_name(line@),
{
    let cs = chars_of(line);
    let w = word_ranges(cs.as_slice());
    let ghost ws = words(line@);
    let addr = if w.len() > 0 {
        match parse_hex_u64(cs.as_slice(), w[0].0, w[0].1) {
            Some(a) => a,
            None => 0,
        }
    } else {
        0
    };
    let is_code = if w.len() > 1 {
        let c = cs[w[1].0];
        assert(ws[1][0] == c);
        c == 't' || c == 'T'
    } else {
        false
    };
    proof {
        reveal_strlit("");
        reveal_strlit(" ");
    }
    let method: &str = if w.len() > 2 {
        line.substring_char(w[2].0, w[2].1)
    } else {
        ""
    };
    assert(method@ == (if ws.len() > 2 { ws[2] } else { Seq::<char>::empty() }));
    let name = if w.len() > 3 {
        let mut n = line.substring_char(w[3].0, w[3].1).to_owned();
        n.append(" ");
        n.append(method);
        n
    } else {
        method.to_owned()
    };
    (addr, is_code, name)
}

/// `find_from` in a suffix of `s` is `find_from` in `s`, less the place
/// where the suffix starts.
proof fn lemma_find_in_suffix(s: Seq<char>, c: char, a: int, i: int)
    requires
        0 <= a <= i <= s.len(),
    ensures
        find_from(s.subrange(a, s.len() as int), c, i - a) == find_from(s, c, i) - a,
    decreases s.len() - i,
{
    if i < s.len() && s[i] != c {
        lemma_find_in_suffix(s, c, a, i + 1);
    }
}

/// The name field that starts at `a` and runs to the end of the line: up
/// to a NUL, without the line end.
fn name_field(line: &str, cs: &[char], a: usize) -> (r: String)
    requires
        cs@ == line@,
        a <= cs@.len(),
    ensures
        r@ == strip_eol(until_nul(cs@.subrange(a as int, cs@.len() as int))),
{
    let ghost tail = cs@.subrange(a as int, cs@.len() as int);
    proof {
        lemma_find_in_suffix(cs@, '\0', a as int, a as int);
        lemma_find_from(cs@, '\0', a as int);
    }
    let nul = find_char(cs, '\0', a);
    let mut end = nul;
    assert(cs@.subrange(a as int, end as int) =~= until_nul(tail));
    if end > a && cs[end - 1] == '\n' {
        end = end - 1;
    }
    if end > a && cs[end - 1] == '\r' {
        end = end - 1;
    }
    assert(cs@.subrange(a as int, end as int) =~= strip_eol(until_nul(tail)));
    line.substring_char(a, end).to_owned()
}

/// Start, size and name of a line of a perf map, or none for a line whose
/// start or size is not hexadecimal.
pub open spec fn perf_map_line(s: Seq<char>) -> Option<(u64, u64, Seq<char>)> {
    let p = split3(s);
    match parse_hex(strip_0x(p[0])) {
        None => None,
        Some(start) => if p.len() < 2 {
            None
        } else {
            match parse_hex(p[1]) {
                None => None,
                Some(size) => Some(
                    (
                        start,
                        size,
                        if p.len() > 2 {
                            strip_eol(until_nul(p[2]))
                        } else {
                            Seq::empty()
                        },
                    ),
                ),
            }
        },
    }
}

/// The first piece's number, after an optional `0x`.
fn parse_start(cs: &[char], piece: (usize, usize)) -> (r: Option<u64>)
    requires
        piece.0 <= piece.1 <= cs@.len(),
    ensures
        r == parse_hex(strip_0x(cs@.subrange(piece.0 as int, piece.1 as int))),
{
    let (a, b) = piece;
    if b - a >= 2 && cs[a] == '0' && (cs[a + 1] == 'x' || cs[a + 1] == 'X') {
        assert(cs@.subrange(a + 2, b as int) =~= strip_0x(cs@.subrange(a as int, b as int)));
        parse_hex_u64(cs, a + 2, b)
    } else {
        parse_hex_u64(cs, a, b)
    }
}

/// `perf_map_line` of `line`.
pub fn parse_perf_map_line(line: &str) -> (r: Option<(u64, u64, String)>)
    ensures
        r is None <==> perf_map_line(line@) is None,
        r matches Some(v) ==> perf_map_line(line@) == Some((v.0, v.1, v.2@)),
{
    let cs = chars_of(line);
    let p = split3_ranges(cs.as_slice());
    let start = match parse_start(cs.as_slice(), p[0]) {
        Some(v) => v,
        None => {
            return None;
        },
    };
    if p.len() < 2 {
        return None;
    }
    let size = match parse_hex_u64(cs.as_slice(), p[1].0, p[1].1) {
        Some(v) => v,
        None => {
            return None;
        },
    };
    let name = if p.len() > 2 {
        assert(p@[2].1 == cs@.len());
        name_field(line, cs.as_slice(), p[2].0)
    } else {
        proof {
            reveal_strlit("");
        }
        "".to_owned()
    };
    Some((start, size, name))
}

/// The line's start and size are hexadecimal and their sum fits.
pub open spec fn r2r_line_ok(s: Seq<char>) -> bool {
    let p = split3(s);
    &&& parse_hex(strip_0x(p[0])) is Some
    &&& p.len() >= 2 ==> parse_hex(p[1]) is Some && or_zero(parse_hex(strip_0x(p[0]))) + or_zero(parse_hex(p[1]))
        <= u64::MAX
}

/// The start of a line of an R2R map.
pub open spec fn r2r_start(s: Seq<char>) -> u64 {
    or_zero(parse_hex(strip_0x(split3(s)[0])))
}

/// The end of a line of an R2R map: start plus size, or 0 without a size.
pub open spec fn r2r_end(s: Seq<char>) -> u64 {
    let p = split3(s);
    if p.len() >= 2 {
        (r2r_start(s) + or_zero(parse_hex(p[1]))) as u64
    } else {
        0
    }
}

/// The name of a line of an R2R map.
pub open spec fn r2r_name(s: Seq<char>) -> Seq<char> {
    let p = split3(s);
    if p.len() > 2 {
        strip_eol(until_nul(p[2]))
    } else {
        Seq::empty()
    }
}

/// Start, end and name of a line of an R2R map.
pub fn parse_r2r_line(line: &str) -> (r: (u64, u64, String))
    requires
        r2r_line_ok(line@),
    ensures
        r.0 == r2r_start(line@),
        r.1 == r2r_end(line@),
        r.2@ == r2r_name(line@),
{
    let cs = chars_of(line);
    let p = split3_ranges(cs.as_slice());
    let start = match parse_start(cs.as_slice(), p[0]) {
        Some(v) => v,
        None => 0,
    };
    let end = if p.len() >= 2 {
        match parse_hex_u64(cs.as_slice(), p[1].0, p[1].1) {
            Some(size) => start + size,
            None => 0,
        }
    } else {
        0
    };
    let name = if p.len() > 2 {
        assert(p@[2].1 == cs@.len());
        name_field(line, cs.as_slice(), p[2].0)
    } else {
        proof {
            reveal_strlit("");
        }
        "".to_owned()
    };
    (start, end, name)
}

/// The 16 bytes that a 32-digit hexadecimal name writes, two digits a byte;
/// zeros for any other name.
pub open spec fn r2r_signature(name: Seq<char>) -> Seq<u8> {
    if name.len() == 32 && vstd::utf8::is_ascii_chars(name) && forall|i: int|
        0 <= i < 16 ==> #[trigger] parse_hex_u8(name.subrange(2 * i, 2 * i + 2)) is Some {
        Seq::new(16, |i: int| parse_hex_u8(name.subrange(2 * i, 2 * i + 2))->0)
    } else {
        Seq::new(16, |i: int| 0u8)
    }
}

/// `r2r_signature` of `name`.
pub fn parse_r2r_signature(name: &str) -> (r: [u8; 16])
    ensures
        r@ == r2r_signature(name@),
{
    let mut buf = [0u8; 16];
    let cs = chars_of(name);
    if cs.len() != 32 || !name.is_ascii() {
        assert(buf@ =~= r2r_signature(name@));
        return buf;
    }
    let mut i: usize = 0;
    while i < 16
        invariant
            i <= 16,
            cs@ == name@,
            cs@.len() == 32,
            buf@.len() == 16,
            forall|k: int| 0 <= k < i ==> #[trigger] parse_hex_u8(name@.subrange(2 * k, 2 * k + 2)) is Some,
            forall|k: int| 0 <= k < i ==> buf@[k] == parse_hex_u8(name@.subrange(2 * k, 2 * k + 2))->0,
        decreases 16 - i,
    {
        match parse_hex_u64(cs.as_slice(), 2 * i, 2 * i + 2) {
            Some(v) => {
                if v > 255 {
                    assert(cs@.subrange(2 * i as int, 2 * i + 2) == name@.subrange(2 * (i as int), 2 * (i as int) + 2));
                    assert(!(parse_hex_u8(name@.subrange(2 * (i as int), 2 * (i as int) + 2)) is Some));
                    let zero = [0u8; 16];
                    assert(zero@ =~= r2r_signature(name@));
                    return zero;
                }
                assert(cs@.subrange(2 * i as int, 2 * i + 2) == name@.subrange(2 * (i as int), 2 * (i as int) + 2));
                buf[i] = v as u8;
            },
            None => {
                assert(cs@.subrange(2 * i as int, 2 * i + 2) == name@.subrange(2 * (i as int), 2 * (i as int) + 2));
                assert(!(parse_hex_u8(name@.subrange(2 * (i as int), 2 * (i as int) + 2)) is Some));
                let zero = [0u8; 16];
                assert(zero@ =~= r2r_signature(name@));
                return zero;
            },
        }
        i = i + 1;
    }
    assert(buf@ =~= r2r_signature(name@));
    buf
}

} // verus!
