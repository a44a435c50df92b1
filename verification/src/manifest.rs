//! The line-format driver manifest: `[[driver]]` stanzas with quoted
//! `compatible` and `binary` values. An earlier boot environment hands the
//! manifest over in this form, as a NUL-terminated byte buffer.

use vstd::prelude::*;
use vstd::string::{StringSliceAdditionalSpecFns, StrSliceExecFns};
use vstd::utf8::{decode_utf8, valid_utf8};

use crate::strutil::string_push_char;

verus! {

/// One manifest stanza: the compatibility string a driver serves and its
/// binary identifier.
#[derive(Debug)]
pub struct DriverEntry {
    pub compatible: String,
    pub binary: String,
}

#[derive(Debug)]
pub struct Manifest {
    pub drivers: Vec<DriverEntry>,
}

/// The characters `trim` strips: the Unicode white-space set.
pub open spec fn is_space(c: char) -> bool {
    ||| c == ' '
    ||| c == '\t'
    ||| c == '\n'
    ||| c == '\u{b}'
    ||| c == '\u{c}'
    ||| c == '\r'
    ||| c == '\u{85}'
    ||| c == '\u{a0}'
    ||| c == '\u{1680}'
    ||| ('\u{2000}' <= c && c <= '\u{200a}')
    ||| c == '\u{2028}'
    ||| c == '\u{2029}'
    ||| c == '\u{202f}'
    ||| c == '\u{205f}'
    ||| c == '\u{3000}'
}

fn is_space_exec(c: char) -> (r: bool)
    ensures
        r == is_space(c),
{
    c == ' ' || c == '\t' || c == '\n' || c == '\u{b}' || c == '\u{c}' || c == '\r'
        || c == '\u{85}' || c == '\u{a0}' || c == '\u{1680}' || ('\u{2000}' <= c && c
        <= '\u{200a}') || c == '\u{2028}' || c == '\u{2029}' || c == '\u{202f}' || c == '\u{205f}'
        || c == '\u{3000}'
}

/// The position of the next line feed at or after `i`, or the end.
pub open spec fn next_nl(s: Seq<char>, i: int) -> int
    decreases s.len() - i,
    when 0 <= i
{
    if i >= s.len() {
        s.len() as int
    } else if s[i] == '\n' {
        i
    } else {
        next_nl(s, i + 1)
    }
}

proof fn lemma_next_nl_bounds(s: Seq<char>, i: int)
    requires
        0 <= i <= s.len(),
    ensures
        i <= next_nl(s, i) <= s.len(),
    decreases s.len() - i,
{
    if i < s.len() && s[i] != '\n' {
        lemma_next_nl_bounds(s, i + 1);
    }
}

/// The first non-space position in `[a, b)`, or `b`.
pub open spec fn spec_trim_start(s: Seq<char>, a: int, b: int) -> int
    decreases b - a,
    when a <= b
{
    if a >= b {
        b
    } else if is_space(s[a]) {
        spec_trim_start(s, a + 1, b)
    } else {
        a
    }
}

/// The end of the last non-space run in `[a, b)`, or `a`.
pub open spec fn spec_trim_end(s: Seq<char>, a: int, b: int) -> int
    decreases b - a,
    when a <= b
{
    if b <= a {
        a
    } else if is_space(s[b - 1]) {
        spec_trim_end(s, a, b - 1)
    } else {
        b
    }
}

/// How many of the character `c` occur in `[a, b)`.
pub open spec fn count_char(s: Seq<char>, a: int, b: int, c: char) -> int
    decreases b - a,
    when a <= b
{
    if a >= b {
        0
    } else {
        (if s[a] == c {
            1int
        } else {
            0int
        }) + count_char(s, a + 1, b, c)
    }
}

/// The first position of `c` in `[a, b)`, or `b`.
pub open spec fn first_char(s: Seq<char>, a: int, b: int, c: char) -> int
    decreases b - a,
    when a <= b
{
    if a >= b {
        b
    } else if s[a] == c {
        a
    } else {
        first_char(s, a + 1, b, c)
    }
}

/// A range without the character has a zero count of it.
proof fn lemma_first_char_none(s: Seq<char>, a: int, b: int, c: char)
    requires
        a <= b,
        first_char(s, a, b, c) == b,
    ensures
        count_char(s, a, b, c) == 0,
    decreases b - a,
{
    if a < b {
        if s[a] == c {
            assert(first_char(s, a, b, c) == a);
        } else {
            lemma_first_char_none(s, a + 1, b, c);
        }
    }
}

/// The range `[a, b)` equals `lit`.
pub open spec fn range_is(s: Seq<char>, a: int, b: int, lit: Seq<char>) -> bool {
    b - a == lit.len() && s.subrange(a, b) == lit
}

/// The range `[a, b)` starts with `lit`.
pub open spec fn range_starts(s: Seq<char>, a: int, b: int, lit: Seq<char>) -> bool {
    b - a >= lit.len() && s.subrange(a, a + lit.len() as int) == lit
}

/// The quoted value of a `key = "value"` line over `[a, b)`: exactly one
/// equals sign, and the trimmed remainder enclosed in double quotes.
pub open spec fn spec_value_of(s: Seq<char>, a: int, b: int) -> Option<Seq<char>> {
    if count_char(s, a, b, '=') != 1 {
        None
    } else {
        let p = first_char(s, a, b, '=');
        let va = spec_trim_start(s, p + 1, b);
        let vb = spec_trim_end(s, va, b);
        if vb - va >= 2 && s[va] == '"' && s[vb - 1] == '"' {
            Some(s.subrange(va + 1, vb - 1))
        } else {
            None
        }
    }
}

/// The pending stanza, emitted only when both values were seen.
pub open spec fn spec_flush(c: Option<Seq<char>>, b: Option<Seq<char>>) -> Seq<
    (Seq<char>, Seq<char>),
> {
    if c is Some && b is Some {
        seq![(c->0, b->0)]
    } else {
        Seq::empty()
    }
}

/// The stanzas the manifest text yields from position `i` on, carrying the
/// pending `compatible` and `binary` values: a `[[driver]]` line emits and
/// clears the pending stanza, value lines replace their pending value, and
/// the end of the text emits what is left.
pub open spec fn spec_pairs_from(
    s: Seq<char>,
    i: int,
    c: Option<Seq<char>>,
    b: Option<Seq<char>>,
) -> Seq<(Seq<char>, Seq<char>)>
    decreases s.len() + 1 - i,
    when 0 <= i
    via spec_pairs_from_decreases
{
    if i >= s.len() {
        spec_flush(c, b)
    } else {
        let e = next_nl(s, i);
        let le = if e > i && s[e - 1] == '\r' {
            e - 1
        } else {
            e
        };
        let ta = spec_trim_start(s, i, le);
        let tb = spec_trim_end(s, ta, le);
        if range_is(s, ta, tb, "[[driver]]"@) {
            spec_flush(c, b) + spec_pairs_from(s, e + 1, None, None)
        } else if range_starts(s, ta, tb, "compatible"@) {
            match spec_value_of(s, ta, tb) {
                Some(v) => spec_pairs_from(s, e + 1, Some(v), b),
                None => spec_pairs_from(s, e + 1, c, b),
            }
        } else if range_starts(s, ta, tb, "binary"@) {
            match spec_value_of(s, ta, tb) {
                Some(v) => spec_pairs_from(s, e + 1, c, Some(v)),
                None => spec_pairs_from(s, e + 1, c, b),
            }
        } else {
            spec_pairs_from(s, e + 1, c, b)
        }
    }
}

#[via_fn]
proof fn spec_pairs_from_decreases(s: Seq<char>, i: int, c: Option<Seq<char>>, b: Option<Seq<char>>) {
    if 0 <= i < s.len() {
        lemma_next_nl_bounds(s, i);
    }
}

/// The position of the first NUL byte, or the end.
pub open spec fn spec_first_nul(b: Seq<u8>, i: int) -> int
    decreases b.len() - i,
    when 0 <= i
{
    if i >= b.len() {
        b.len() as int
    } else if b[i] == 0 {
        i
    } else {
        spec_first_nul(b, i + 1)
    }
}

/// The stanzas of a manifest buffer: the bytes up to the first NUL, decoded
/// as UTF-8 (an invalid buffer yields nothing), parsed line by line.
pub open spec fn spec_manifest(bytes: Seq<u8>) -> Seq<(Seq<char>, Seq<char>)> {
    let pre = bytes.subrange(0, spec_first_nul(bytes, 0));
    if valid_utf8(pre) {
        spec_pairs_from(decode_utf8(pre), 0, None, None)
    } else {
        Seq::empty()
    }
}

/// The stanzas a parsed manifest value carries.
pub open spec fn spec_entries(drivers: Seq<DriverEntry>) -> Seq<(Seq<char>, Seq<char>)> {
    Seq::new(drivers.len(), |k: int| (drivers[k].compatible@, drivers[k].binary@))
}

/// The binary of the first stanza whose compatibility string is `c`.
pub open spec fn spec_find_binary(s: Seq<DriverEntry>, c: Seq<char>) -> Option<Seq<char>>
    decreases s.len(),
{
    if s.len() == 0 {
        None
    } else if s[0].compatible@ == c {
        Some(s[0].binary@)
    } else {
        spec_find_binary(s.drop_first(), c)
    }
}

/// Relies on `str::from_utf8`: `Some` exactly for valid UTF-8, and the
/// returned view decodes those bytes.
#[verifier::external_body]
fn bytes_as_str(v: &[u8]) -> (r: Option<&str>)
    ensures
        r is Some <==> valid_utf8(v@),
        (r matches Some(s) ==> s.spec_bytes() == v@),
{
    core::str::from_utf8(v).ok()
}

/// Collects the characters of a string.
fn str_chars(s: &str) -> (v: Vec<char>)
    ensures
        v@ == s@,
{
    let n = s.unicode_len();
    let mut v: Vec<char> = Vec::new();
    let mut i: usize = 0;
    while i < n
        invariant
            i <= n,
            n == s@.len(),
            v@ == s@.take(i as int),
        decreases n - i,
    {
        v.push(s.get_char(i));
        proof {
            assert(v@ =~= s@.take(i + 1));
        }
        i = i + 1;
    }
    proof {
        assert(s@.take(n as int) =~= s@);
    }
    v
}

fn find_nl(v: &Vec<char>, i: usize) -> (r: usize)
    requires
        i <= v@.len(),
    ensures
        r == next_nl(v@, i as int),
        i <= r <= v@.len(),
{
    let mut j = i;
    while j < v.len()
        invariant
            i <= j <= v@.len(),
            next_nl(v@, i as int) == next_nl(v@, j as int),
            forall|t: int| i <= t < j ==> v@[t] != '\n',
        decreases v@.len() - j,
    {
        if v[j] == '\n' {
            return j;
        }
        j = j + 1;
    }
    j
}

fn trim_range(v: &Vec<char>, a: usize, b: usize) -> (r: (usize, usize))
    requires
        a <= b <= v@.len(),
    ensures
        r.0 == spec_trim_start(v@, a as int, b as int),
        r.1 == spec_trim_end(v@, r.0 as int, b as int),
        a <= r.0 <= r.1 <= b,
{
    let mut ta = a;
    while ta < b && is_space_exec(v[ta])
        invariant
            a <= ta <= b <= v@.len(),
            spec_trim_start(v@, a as int, b as int) == spec_trim_start(v@, ta as int, b as int),
        decreases b - ta,
    {
        ta = ta + 1;
    }
    let mut tb = b;
    while tb > ta && is_space_exec(v[tb - 1])
        invariant
            ta <= tb <= b <= v@.len(),
            spec_trim_end(v@, ta as int, b as int) == spec_trim_end(v@, ta as int, tb as int),
        decreases tb,
    {
        tb = tb - 1;
    }
    (ta, tb)
}

/// Compares `[a, b)` against a literal.
fn range_eq_str(v: &Vec<char>, a: usize, b: usize, lit: &str) -> (r: bool)
    requires
        a <= b <= v@.len(),
    ensures
        r == range_is(v@, a as int, b as int, lit@),
{
    let n = lit.unicode_len();
    if b - a != n {
        return false;
    }
    let mut j: usize = 0;
    while j < n
        invariant
            j <= n,
            n == lit@.len(),
            a + n == b,
            b <= v@.len(),
            forall|t: int| 0 <= t < j ==> v@[a + t] == lit@[t],
        decreases n - j,
    {
        if v[a + j] != lit.get_char(j) {
            proof {
                assert(v@.subrange(a as int, b as int)[j as int] == v@[a + j]);
            }
            return false;
        }
        j = j + 1;
    }
    proof {
        assert(v@.subrange(a as int, b as int) =~= lit@);
    }
    true
}

/// Whether `[a, b)` starts with a literal.
fn range_starts_str(v: &Vec<char>, a: usize, b: usize, lit: &str) -> (r: bool)
    requires
        a <= b <= v@.len(),
    ensures
        r == range_starts(v@, a as int, b as int, lit@),
{
    let n = lit.unicode_len();
    if b - a < n {
        return false;
    }
    let mut j: usize = 0;
    while j < n
        invariant
            j <= n,
            n == lit@.len(),
            a + n <= b <= v@.len(),
            forall|t: int| 0 <= t < j ==> v@[a + t] == lit@[t],
        decreases n - j,
    {
        if v[a + j] != lit.get_char(j) {
            proof {
                assert(v@.subrange(a as int, a + lit@.len() as int)[j as int] == v@[a + j]);
            }
            return false;
        }
        j = j + 1;
    }
    proof {
        assert(v@.subrange(a as int, a + lit@.len() as int) =~= lit@);
    }
    true
}

/// Extracts the quoted value of a `key = "value"` range.
fn value_of(v: &Vec<char>, a: usize, b: usize) -> (r: Option<String>)
    requires
        a <= b <= v@.len(),
    ensures
        match r {
            Some(x) => spec_value_of(v@, a as int, b as int) == Some(x@),
            None => spec_value_of(v@, a as int, b as int) is None,
        },
{
    // exactly one equals sign
    let mut cnt: usize = 0;
    let mut j = a;
    while j < b
        invariant
            a <= j <= b <= v@.len(),
            cnt <= j - a,
            count_char(v@, a as int, b as int, '=') == cnt + count_char(
                v@,
                j as int,
                b as int,
                '=',
            ),
        decreases b - j,
    {
        if v[j] == '=' {
            cnt = cnt + 1;
        }
        j = j + 1;
    }
    if cnt != 1 {
        return None;
    }
    // its position
    let mut p = a;
    while p < b && v[p] != '='
        invariant
            a <= p <= b <= v@.len(),
            first_char(v@, a as int, b as int, '=') == first_char(v@, p as int, b as int, '='),
        decreases b - p,
    {
        p = p + 1;
    }
    proof {
        if p == b {
            lemma_first_char_none(v@, a as int, b as int, '=');
        }
    }
    let (va, vb) = trim_range(v, p + 1, b);
    if vb - va >= 2 && v[va] == '"' && v[vb - 1] == '"' {
        let mut out = String::new();
        let mut k = va + 1;
        while k < vb - 1
            invariant
                va + 1 <= k <= vb - 1,
                vb <= v@.len(),
                out@ == v@.subrange(va + 1 as int, k as int),
            decreases vb - k,
        {
            string_push_char(&mut out, v[k]);
            proof {
                assert(out@ =~= v@.subrange(va + 1 as int, k + 1 as int));
            }
            k = k + 1;
        }
        Some(out)
    } else {
        None
    }
}

/// The value of a single trimmed manifest line (`key = "value"`).
pub fn parse_value(line: &str) -> (r: Option<String>)
    ensures
        match r {
            Some(x) => spec_value_of(line@, 0, line@.len() as int) == Some(x@),
            None => spec_value_of(line@, 0, line@.len() as int) is None,
        },
{
    let chars = str_chars(line);
    value_of(&chars, 0, chars.len())
}

/// One line-processing state step, shared by the loop and the final flush.
spec fn opt_view(o: Option<String>) -> Option<Seq<char>> {
    match o {
        Some(s) => Some(s@),
        None => None,
    }
}

fn parse_core(chars: &Vec<char>) -> (m: Manifest)
    ensures
        spec_entries(m.drivers@) == spec_pairs_from(chars@, 0, None, None),
{
    let n = chars.len();
    let mut drivers: Vec<DriverEntry> = Vec::new();
    let mut cur_c: Option<String> = None;
    let mut cur_b: Option<String> = None;
    let mut i: usize = 0;
    while i < n
        invariant
            i <= n,
            n == chars@.len(),
            spec_pairs_from(chars@, 0, None, None) =~= spec_entries(drivers@) + spec_pairs_from(
                chars@,
                i as int,
                opt_view(cur_c),
                opt_view(cur_b),
            ),
        decreases n - i,
    {
        let ghost pre_i = i as int;
        let e = find_nl(chars, i);
        let le = if e > i && chars[e - 1] == '\r' {
            e - 1
        } else {
            e
        };
        let (ta, tb) = trim_range(chars, i, le);
        if range_eq_str(chars, ta, tb, "[[driver]]") {
            let cprev = cur_c;
            let bprev = cur_b;
            cur_c = None;
            cur_b = None;
            let ghost pre_entries = spec_entries(drivers@);
            match (cprev, bprev) {
                (Some(cv), Some(bv)) => {
                    drivers.push(DriverEntry { compatible: cv, binary: bv });
                    proof {
                        assert(spec_entries(drivers@) =~= pre_entries + spec_flush(
                            opt_view(Some(cv)),
                            opt_view(Some(bv)),
                        ));
                    }
                },
                (cprev, bprev) => {
                    proof {
                        assert(spec_flush(opt_view(cprev), opt_view(bprev))
                            =~= Seq::<(Seq<char>, Seq<char>)>::empty());
                        assert(spec_entries(drivers@) =~= pre_entries + spec_flush(
                            opt_view(cprev),
                            opt_view(bprev),
                        ));
                    }
                },
            }
        } else if range_starts_str(chars, ta, tb, "compatible") {
            match value_of(chars, ta, tb) {
                Some(v) => {
                    cur_c = Some(v);
                },
                None => {},
            }
        } else if range_starts_str(chars, ta, tb, "binary") {
            match value_of(chars, ta, tb) {
                Some(v) => {
                    cur_b = Some(v);
                },
                None => {},
            }
        }
        proof {
            lemma_next_nl_bounds(chars@, pre_i);
        }
        if e == n {
            proof {
                assert(spec_pairs_from(chars@, n as int + 1, opt_view(cur_c), opt_view(cur_b))
                    == spec_pairs_from(chars@, n as int, opt_view(cur_c), opt_view(cur_b)));
            }
            i = n;
        } else {
            i = e + 1;
        }
    }
    let ghost pre_entries = spec_entries(drivers@);
    match (cur_c, cur_b) {
        (Some(cv), Some(bv)) => {
            drivers.push(DriverEntry { compatible: cv, binary: bv });
            proof {
                assert(spec_entries(drivers@) =~= pre_entries + spec_flush(
                    Some(cv@),
                    Some(bv@),
                ));
            }
        },
        (cprev, bprev) => {
            proof {
                assert(spec_entries(drivers@) =~= pre_entries + spec_flush(
                    opt_view(cprev),
                    opt_view(bprev),
                ));
            }
        },
    }
    Manifest { drivers }
}

impl Manifest {
    /// Parses a NUL-terminated manifest buffer: the valid UTF-8 text before
    /// the first NUL is read stanza by stanza; anything else yields an
    /// empty manifest.
    pub fn parse(data: &[u8]) -> (m: Manifest)
        ensures
            spec_entries(m.drivers@) == spec_manifest(data@),
    {
        let dlen: usize = data.len();
        let mut p: usize = 0;
        while p < dlen && *vstd::slice::slice_index_get(data, p) != 0
            invariant
                p <= dlen,
                dlen == data@.len(),
                spec_first_nul(data@, 0) == spec_first_nul(data@, p as int),
            decreases dlen - p,
        {
            p = p + 1;
        }
        let prefix = vstd::slice::slice_subrange(data, 0, p);
        proof {
            assert(prefix@ == data@.subrange(0, spec_first_nul(data@, 0)));
        }
        match bytes_as_str(prefix) {
            Some(s) => {
                proof {
                    vstd::utf8::encode_utf8_decode_utf8(s@);
                }
                let chars = str_chars(s);
                parse_core(&chars)
            },
            None => {
                let empty: Vec<char> = Vec::new();
                let m = parse_core(&empty);
                proof {
                    assert(spec_pairs_from(empty@, 0, None, None) =~= Seq::<
                        (Seq<char>, Seq<char>),
                    >::empty());
                }
                m
            },
        }
    }

    /// The binary of the first stanza serving `compatible` exactly; `None`
    /// when no stanza does.
    pub fn find_binary(&self, compatible: &str) -> (r: Option<&str>)
        ensures
            match r {
                Some(x) => spec_find_binary(self.drivers@, compatible@) == Some(x@),
                None => spec_find_binary(self.drivers@, compatible@) is None,
            },
    {
        proof {
            assert(self.drivers@.skip(0) =~= self.drivers@);
        }
        let mut i: usize = 0;
        while i < self.drivers.len()
            invariant
                i <= self.drivers@.len(),
                spec_find_binary(self.drivers@, compatible@) == spec_find_binary(
                    self.drivers@.skip(i as int),
                    compatible@,
                ),
            decreases self.drivers@.len() - i,
        {
            let d = &self.drivers[i];
            proof {
                assert(self.drivers@.skip(i as int)[0] == self.drivers@[i as int]);
                assert(self.drivers@.skip(i as int).drop_first() =~= self.drivers@.skip(i + 1));
            }
            if crate::strutil::str_eq(d.compatible.as_str(), compatible) {
                return Some(d.binary.as_str());
            }
            i = i + 1;
        }
        None
    }
}

} // verus!
