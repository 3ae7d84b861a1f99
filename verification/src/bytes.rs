//! Small verified helpers over byte slices and string slices.
use vstd::prelude::*;

verus! {

/// `s` with every byte at a position in `start..end` set to zero.
pub open spec fn zero_span(s: Seq<u8>, start: int, end: int) -> Seq<u8> {
    Seq::new(s.len(), |j: int| if start <= j < end { 0u8 } else { s[j] })
}

/// `n` zero bytes.
pub open spec fn zeros(n: nat) -> Seq<u8> {
    Seq::new(n, |j: int| 0u8)
}

/// `s` starts with `prefix`.
pub open spec fn has_prefix<T>(s: Seq<T>, prefix: Seq<T>) -> bool {
    prefix.len() <= s.len() && s.take(prefix.len() as int) == prefix
}

/// `s` ends with `suffix`.
pub open spec fn has_suffix<T>(s: Seq<T>, suffix: Seq<T>) -> bool {
    suffix.len() <= s.len() && s.skip(s.len() - suffix.len()) == suffix
}

/// The views of a list of strings.
pub open spec fn string_views(v: Seq<String>) -> Seq<Seq<char>> {
    v.map_values(|s: String| s@)
}

/// A fresh vector holding the bytes `data[start..end]`.
pub fn copy_range(data: &[u8], start: usize, end: usize) -> (out: Vec<u8>)
    requires
        start <= end <= data@.len(),
    ensures
        out@ == data@.subrange(start as int, end as int),
{
    let mut out: Vec<u8> = Vec::with_capacity(end - start);
    let mut i: usize = start;
    while i < end
        invariant
            start <= i <= end <= data@.len(),
            out@ == data@.subrange(start as int, i as int),
        decreases end - i,
    {
        out.push(data[i]);
        i = i + 1;
    }
    out
}

/// A fresh vector holding all of `data`.
pub fn copy_bytes(data: &[u8]) -> (out: Vec<u8>)
    ensures
        out@ == data@,
{
    let out = copy_range(data, 0, data.len());
    assert(data@.subrange(0, data@.len() as int) == data@);
    out
}

/// A vector of `n` zero bytes.
pub fn zero_bytes(n: usize) -> (out: Vec<u8>)
    ensures
        out@ == zeros(n as nat),
{
    let mut out: Vec<u8> = Vec::with_capacity(n);
    let mut i: usize = 0;
    while i < n
        invariant
            i <= n,
            out@ == zeros(i as nat),
        decreases n - i,
    {
        out.push(0u8);
        i = i + 1;
    }
    out
}

/// Sets `data[start..end]` to zero.
pub fn zero_fill(data: &mut Vec<u8>, start: usize, end: usize)
    requires
        start <= end <= old(data)@.len(),
    ensures
        final(data)@ == zero_span(old(data)@, start as int, end as int),
{
    let mut i: usize = start;
    while i < end
        invariant
            start <= i <= end <= data@.len(),
            data@.len() == old(data)@.len(),
            data@ == zero_span(old(data)@, start as int, i as int),
        decreases end - i,
    {
        data.set(i, 0u8);
        i = i + 1;
    }
}

/// Whether `a[i..i + len]` and `b[j..j + len]` hold the same bytes.
pub fn same_bytes(a: &[u8], i: usize, b: &[u8], j: usize, len: usize) -> (same: bool)
    requires
        i + len <= a@.len(),
        j + len <= b@.len(),
    ensures
        same == (a@.subrange(i as int, i + len) == b@.subrange(j as int, j + len)),
{
    let ghost sa = a@.subrange(i as int, i + len);
    let ghost sb = b@.subrange(j as int, j + len);
    let alen = a.len();
    let blen = b.len();
    let mut k: usize = 0;
    while k < len
        invariant
            k <= len,
            i + len <= a@.len(),
            j + len <= b@.len(),
            alen == a@.len(),
            blen == b@.len(),
            sa == a@.subrange(i as int, i + len),
            sb == b@.subrange(j as int, j + len),
            forall|t: int| 0 <= t < k ==> #[trigger] sa[t] == sb[t],
        decreases len - k,
    {
        if a[i + k] != b[j + k] {
            assert(sa[k as int] != sb[k as int]);
            return false;
        }
        k = k + 1;
    }
    assert(sa =~= sb);
    true
}

/// Whether two byte slices are equal.
pub fn bytes_equal(a: &[u8], b: &[u8]) -> (eq: bool)
    ensures
        eq == (a@ == b@),
{
    if a.len() != b.len() {
        return false;
    }
    let r = same_bytes(a, 0, b, 0, a.len());
    assert(a@.subrange(0, a@.len() as int) == a@);
    assert(b@.subrange(0, b@.len() as int) == b@);
    r
}

/// Whether two string slices hold the same characters.
pub fn str_equals(a: &str, b: &str) -> (eq: bool)
    ensures
        eq == (a@ == b@),
{
    let n = a.unicode_len();
    if n != b.unicode_len() {
        return false;
    }
    let mut i: usize = 0;
    while i < n
        invariant
            i <= n,
            n == a@.len(),
            n == b@.len(),
            forall|t: int| 0 <= t < i ==> a@[t] == b@[t],
        decreases n - i,
    {
        if a.get_char(i) != b.get_char(i) {
            return false;
        }
        i = i + 1;
    }
    assert(a@ =~= b@);
    true
}

/// Whether `s` starts with `prefix`.
pub fn str_starts_with(s: &str, prefix: &str) -> (r: bool)
    ensures
        r == has_prefix(s@, prefix@),
{
    let n = prefix.unicode_len();
    if n > s.unicode_len() {
        return false;
    }
    let mut i: usize = 0;
    while i < n
        invariant
            i <= n,
            n == prefix@.len(),
            n <= s@.len(),
            forall|t: int| 0 <= t < i ==> s@[t] == prefix@[t],
        decreases n - i,
    {
        if s.get_char(i) != prefix.get_char(i) {
            assert(s@.take(n as int)[i as int] != prefix@[i as int]);
            return false;
        }
        i = i + 1;
    }
    assert(s@.take(n as int) =~= prefix@);
    true
}

/// Whether `s` ends with `suffix`.
pub fn str_ends_with(s: &str, suffix: &str) -> (r: bool)
    ensures
        r == has_suffix(s@, suffix@),
{
    let n = suffix.unicode_len();
    let m = s.unicode_len();
    if n > m {
        return false;
    }
    let d = m - n;
    let ghost tail = s@.skip(d as int);
    let mut i: usize = 0;
    while i < n
        invariant
            i <= n,
            n == suffix@.len(),
            m == s@.len(),
            d + n == m,
            tail == s@.skip(d as int),
            forall|t: int| 0 <= t < i ==> #[trigger] tail[t] == suffix@[t],
        decreases n - i,
    {
        if s.get_char(d + i) != suffix.get_char(i) {
            assert(tail[i as int] != suffix@[i as int]);
            return false;
        }
        i = i + 1;
    }
    assert(tail =~= suffix@);
    true
}

} // verus!
