//! Normalizers mask bytes that legitimately differ between two otherwise
//! reproducible builds (build IDs, timestamps, host paths, tool banners).
use vstd::prelude::*;
use std::borrow::Cow;
use crate::bytes::{
    copy_bytes, same_bytes, str_equals, str_starts_with, zero_bytes, zero_fill, zero_span, zeros,
    has_prefix,
};

verus! {

/// A rewrite applied to the bytes of a named section before comparison.
pub trait Normalizer: Send + Sync {
    /// The normalizer's name.
    spec fn spec_name(&self) -> Seq<char>;

    /// The bytes this normalizer turns `data` (of the section named `section`) into.
    spec fn spec_normalize(&self, section: Seq<char>, data: Seq<u8>) -> Seq<u8>;

    fn name(&self) -> (name: &'static str)
        ensures
            name@ == self.spec_name(),
    ;

    /// Rewrites `data`; a borrowed result means the bytes are left as they are.
    fn normalize<'a>(&self, section: &str, data: &'a [u8]) -> (out: Cow<'a, [u8]>)
        ensures
            out@ == self.spec_normalize(section@, data@),
            out is Borrowed ==> self.spec_normalize(section@, data@) == data@,
    ;
}

// ---------------------------------------------------------------- build id

/// Sections that hold a build identifier.
pub open spec fn is_build_id_section(section: Seq<char>) -> bool {
    has_prefix(section, ".note"@) || section == "__DATA,__uuid"@
}

/// Zeroes the whole content of build-identifier sections.
pub struct BuildIdNormalizer;

impl Normalizer for BuildIdNormalizer {
    open spec fn spec_name(&self) -> Seq<char> {
        "build-id"@
    }

    open spec fn spec_normalize(&self, section: Seq<char>, data: Seq<u8>) -> Seq<u8> {
        if is_build_id_section(section) {
            zeros(data.len())
        } else {
            data
        }
    }

    fn name(&self) -> (name: &'static str) {
        "build-id"
    }

    fn normalize<'a>(&self, section: &str, data: &'a [u8]) -> (out: Cow<'a, [u8]>)
        ensures
            is_build_id_section(section@) ==> out is Owned,
            !is_build_id_section(section@) ==> (out matches Cow::Borrowed(b) && b@ == data@),
    {
        if !str_starts_with(section, ".note") && !str_equals(section, "__DATA,__uuid") {
            return Cow::Borrowed(data);
        }
        Cow::Owned(zero_bytes(data.len()))
    }
}

// --------------------------------------------------------------- timestamp

/// Smallest value taken for a Unix timestamp (2001-09-09).
pub const TS_MIN: u32 = 0x3B9A_CA00;

/// Largest value taken for a Unix timestamp (2038-01-19).
pub const TS_MAX: u32 = 0x7FFF_FFFF;

/// The little-endian 32-bit word at `s[i..i + 4]`.
pub open spec fn le_word(s: Seq<u8>, i: int) -> int {
    s[i] + 256 * s[i + 1] + 65536 * s[i + 2] + 16777216 * s[i + 3]
}

/// The word at `i` looks like a Unix timestamp.
pub open spec fn looks_like_timestamp(s: Seq<u8>, i: int) -> bool {
    TS_MIN <= le_word(s, i) <= TS_MAX
}

/// Scans the windows starting at `i, i + 1, ...` in order, zeroing each
/// window that looks like a timestamp at the moment it is visited.
pub open spec fn timestamps_masked_from(s: Seq<u8>, i: int) -> Seq<u8>
    decreases s.len() - i,
{
    if i < 0 || i + 4 > s.len() {
        s
    } else if looks_like_timestamp(s, i) {
        timestamps_masked_from(zero_span(s, i, i + 4), i + 1)
    } else {
        timestamps_masked_from(s, i + 1)
    }
}

/// The section where timestamps are recorded: `.comment`.
pub open spec fn is_timestamp_section(section: Seq<char>) -> bool {
    section == ".comment"@
}

/// Zeroes 4-byte little-endian values that look like Unix timestamps in
/// `.comment`.
pub struct TimestampNormalizer;

impl Normalizer for TimestampNormalizer {
    open spec fn spec_name(&self) -> Seq<char> {
        "timestamp"@
    }

    open spec fn spec_normalize(&self, section: Seq<char>, data: Seq<u8>) -> Seq<u8> {
        if is_timestamp_section(section) {
            timestamps_masked_from(data, 0)
        } else {
            data
        }
    }

    fn name(&self) -> (name: &'static str) {
        "timestamp"
    }

    fn normalize<'a>(&self, section: &str, data: &'a [u8]) -> (out: Cow<'a, [u8]>)
        ensures
            is_timestamp_section(section@) ==> out is Owned,
            !is_timestamp_section(section@) ==> (out matches Cow::Borrowed(b) && b@ == data@),
    {
        if !str_equals(section, ".comment") {
            return Cow::Borrowed(data);
        }
        let mut out = copy_bytes(data);
        let n = out.len();
        let stop: usize = if n >= 3 { n - 3 } else { 0 };
        let mut i: usize = 0;
        while i < stop
            invariant
                i <= stop,
                n == out@.len(),
                stop == if n >= 3 { n - 3 } else { 0 },
                timestamps_masked_from(data@, 0) == timestamps_masked_from(out@, i as int),
            decreases stop - i,
        {
            let v: u64 = out[i] as u64 + 256 * (out[i + 1] as u64) + 65536 * (out[i + 2] as u64)
                + 16777216 * (out[i + 3] as u64);
            if v >= TS_MIN as u64 && v <= TS_MAX as u64 {
                zero_fill(&mut out, i, i + 4);
            }
            i = i + 1;
        }
        Cow::Owned(out)
    }
}

// ----------------------------------------------------------- absolute path

/// Host-absolute paths such as `/home/user/project/src/lib.rs`.
pub const ABSOLUTE_PATH_PATTERN: &'static str = r"/[A-Za-z0-9_.\-]+(?:/[A-Za-z0-9_.\-]+)+";

/// What `regex::bytes::Regex::replace_all` gives for `data` with the
/// regular expression `pattern` and the literal `replacement`: every
/// non-overlapping match, leftmost first, replaced.
pub uninterp spec fn regex_replaced(pattern: Seq<char>, data: Seq<u8>, replacement: Seq<u8>) -> Seq<u8>;

/// The bytes `<PATH>` that stand in for a masked path.
pub open spec fn path_marker() -> Seq<u8> {
    seq![60u8, 80, 65, 84, 72, 62]
}

/// `data` with every host-absolute path replaced by `<PATH>`.
pub open spec fn absolute_paths_masked(data: Seq<u8>) -> Seq<u8> {
    regex_replaced(ABSOLUTE_PATH_PATTERN@, data, path_marker())
}

/// Compiles `pattern` with `regex::bytes::Regex::new` and calls
/// `Regex::replace_all(data, replacement)`.  `Regex::new` fails only on a
/// pattern that is not valid syntax; the one pattern passed here is valid,
/// hence the precondition.  Claimed: the result is the named replacement,
/// and a borrowed result (which the regex crate returns when nothing
/// matches) holds `data` itself.
#[verifier::external_body]
fn replace_all_matches<'a>(pattern: &str, data: &'a [u8], replacement: &[u8]) -> (out: Cow<'a, [u8]>)
    requires
        pattern@ == ABSOLUTE_PATH_PATTERN@,
    ensures
        out@ == regex_replaced(pattern@, data@, replacement@),
        out is Borrowed ==> regex_replaced(pattern@, data@, replacement@) == data@,
{
    let re = regex::bytes::Regex::new(pattern).expect("valid pattern");
    match re.replace_all(data, replacement) {
        Cow::Borrowed(_) => Cow::Borrowed(data),
        Cow::Owned(v) => Cow::Owned(v),
    }
}

/// Sections where host paths are recorded.
pub open spec fn is_path_section(section: Seq<char>) -> bool {
    section == ".debug_str"@ || section == ".debug_line_str"@ || section == ".comment"@ || section
        == "__DWARF,__debug_str"@
}

/// Replaces host-absolute paths in string sections by `<PATH>`.
pub struct AbsolutePathNormalizer;

impl AbsolutePathNormalizer {
    pub fn new() -> (n: Self) {
        AbsolutePathNormalizer
    }
}

impl Default for AbsolutePathNormalizer {
    fn default() -> (n: Self) {
        Self::new()
    }
}

impl Normalizer for AbsolutePathNormalizer {
    open spec fn spec_name(&self) -> Seq<char> {
        "absolute-path"@
    }

    open spec fn spec_normalize(&self, section: Seq<char>, data: Seq<u8>) -> Seq<u8> {
        if is_path_section(section) {
            absolute_paths_masked(data)
        } else {
            data
        }
    }

    fn name(&self) -> (name: &'static str) {
        "absolute-path"
    }

    fn normalize<'a>(&self, section: &str, data: &'a [u8]) -> (out: Cow<'a, [u8]>)
        ensures
            !is_path_section(section@) ==> (out matches Cow::Borrowed(b) && b@ == data@),
    {
        if !(str_equals(section, ".debug_str") || str_equals(section, ".debug_line_str")
            || str_equals(section, ".comment") || str_equals(section, "__DWARF,__debug_str")) {
            return Cow::Borrowed(data);
        }
        let marker: [u8; 6] = [60u8, 80, 65, 84, 72, 62];
        assert(marker@ == path_marker());
        replace_all_matches(ABSOLUTE_PATH_PATTERN, data, marker.as_slice())
    }
}

// ---------------------------------------------------------- linker version

/// The banner keywords: `Linker:`, `GCC:`, `clang version`, `LLVM`.
pub open spec fn banner_keyword(k: int) -> Seq<u8> {
    if k == 0 {
        seq![76u8, 105, 110, 107, 101, 114, 58]
    } else if k == 1 {
        seq![71u8, 67, 67, 58]
    } else if k == 2 {
        seq![99u8, 108, 97, 110, 103, 32, 118, 101, 114, 115, 105, 111, 110]
    } else {
        seq![76u8, 76, 86, 77]
    }
}

/// `s[i..]` starts with one of the banner keywords.
pub open spec fn banner_at(s: Seq<u8>, i: int) -> bool {
    exists|k: int| 0 <= k < 4 && #[trigger] has_prefix(s.skip(i), banner_keyword(k))
}

/// The first position at or after `i` holding a zero byte, or `s.len()`.
pub open spec fn nul_from(s: Seq<u8>, i: int) -> int
    decreases s.len() - i,
{
    if i >= s.len() {
        s.len() as int
    } else if s[i] == 0 {
        i
    } else {
        nul_from(s, i + 1)
    }
}

/// End of the C string starting at `i`: just past its terminating zero, or `s.len()`.
pub open spec fn c_string_end(s: Seq<u8>, i: int) -> int {
    if nul_from(s, i) < s.len() {
        nul_from(s, i) + 1
    } else {
        s.len() as int
    }
}

/// Scans positions `i, i + 1, ...` in order; where a banner keyword starts,
/// zeroes up to the end of its C string.
pub open spec fn banners_masked_from(s: Seq<u8>, i: int) -> Seq<u8>
    decreases s.len() - i,
{
    if i < 0 || i >= s.len() {
        s
    } else if banner_at(s, i) {
        banners_masked_from(zero_span(s, i, c_string_end(s, i)), i + 1)
    } else {
        banners_masked_from(s, i + 1)
    }
}

proof fn lemma_nul_from_bounds(s: Seq<u8>, i: int)
    requires
        0 <= i <= s.len(),
    ensures
        i <= nul_from(s, i) <= s.len(),
        nul_from(s, i) < s.len() ==> s[nul_from(s, i)] == 0,
        forall|j: int| i <= j < nul_from(s, i) ==> s[j] != 0,
    decreases s.len() - i,
{
    if i < s.len() && s[i] != 0 {
        lemma_nul_from_bounds(s, i + 1);
    }
}

/// Zeroes NUL-terminated linker and compiler banners in `.comment`.
pub struct LinkerVersionNormalizer;

/// Position of the first zero byte at or after `i` (or the length).
fn find_nul(s: &Vec<u8>, i: usize) -> (p: usize)
    requires
        i <= s@.len(),
    ensures
        p == nul_from(s@, i as int),
{
    let mut j = i;
    while j < s.len()
        invariant
            i <= j <= s@.len(),
            nul_from(s@, i as int) == nul_from(s@, j as int),
        decreases s@.len() - j,
    {
        if s[j] == 0 {
            return j;
        }
        j = j + 1;
    }
    j
}

/// Whether `s[i..]` starts with `kw`.
fn starts_with_at(s: &Vec<u8>, i: usize, kw: &Vec<u8>) -> (b: bool)
    requires
        i <= s@.len(),
    ensures
        b == has_prefix(s@.skip(i as int), kw@),
{
    if kw.len() > s.len() - i {
        return false;
    }
    let r = same_bytes(s.as_slice(), i, kw.as_slice(), 0, kw.len());
    assert(kw@.subrange(0, kw@.len() as int) == kw@);
    assert(s@.subrange(i as int, i + kw@.len()) == s@.skip(i as int).take(kw@.len() as int));
    r
}

impl Normalizer for LinkerVersionNormalizer {
    open spec fn spec_name(&self) -> Seq<char> {
        "linker-version"@
    }

    open spec fn spec_normalize(&self, section: Seq<char>, data: Seq<u8>) -> Seq<u8> {
        if section == ".comment"@ {
            banners_masked_from(data, 0)
        } else {
            data
        }
    }

    fn name(&self) -> (name: &'static str) {
        "linker-version"
    }

    fn normalize<'a>(&self, section: &str, data: &'a [u8]) -> (out: Cow<'a, [u8]>)
        ensures
            section@ != ".comment"@ ==> (out matches Cow::Borrowed(b) && b@ == data@),
    {
        if !str_equals(section, ".comment") {
            return Cow::Borrowed(data);
        }
        let k0: Vec<u8> = vec![76u8, 105, 110, 107, 101, 114, 58];
        let k1: Vec<u8> = vec![71u8, 67, 67, 58];
        let k2: Vec<u8> = vec![99u8, 108, 97, 110, 103, 32, 118, 101, 114, 115, 105, 111, 110];
        let k3: Vec<u8> = vec![76u8, 76, 86, 77];
        assert(k0@ == banner_keyword(0));
        assert(k1@ == banner_keyword(1));
        assert(k2@ == banner_keyword(2));
        assert(k3@ == banner_keyword(3));
        let mut out = copy_bytes(data);
        let n = out.len();
        let mut i: usize = 0;
        while i < n
            invariant
                i <= n,
                n == out@.len(),
                k0@ == banner_keyword(0),
                k1@ == banner_keyword(1),
                k2@ == banner_keyword(2),
                k3@ == banner_keyword(3),
                banners_masked_from(data@, 0) == banners_masked_from(out@, i as int),
            decreases n - i,
        {
            let hit = starts_with_at(&out, i, &k0) || starts_with_at(&out, i, &k1)
                || starts_with_at(&out, i, &k2) || starts_with_at(&out, i, &k3);
            proof {
                if banner_at(out@, i as int) {
                    let k = choose|k: int| 0 <= k < 4 && #[trigger] has_prefix(out@.skip(i as int), banner_keyword(k));
                    assert(hit);
                }
                if hit {
                    if has_prefix(out@.skip(i as int), banner_keyword(0)) {
                    } else if has_prefix(out@.skip(i as int), banner_keyword(1)) {
                    } else if has_prefix(out@.skip(i as int), banner_keyword(2)) {
                    } else {
                        assert(has_prefix(out@.skip(i as int), banner_keyword(3)));
                    }
                    assert(banner_at(out@, i as int));
                }
            }
            if hit {
                let nul = find_nul(&out, i);
                proof {
                    lemma_nul_from_bounds(out@, i as int);
                }
                let end = if nul < n { nul + 1 } else { n };
                zero_fill(&mut out, i, end);
            }
            i = i + 1;
        }
        Cow::Owned(out)
    }
}

} // verus!

verus! {

// ------------------------------------------------------------------ chain

/// One normalizer held by a chain.
pub struct Stage {
    pub normalizer: Box<dyn Normalizer>,
}

/// A normalizer that can be made a chain stage behaving as itself.
pub trait IntoStage: Normalizer + Sized {
    /// The stage holding this normalizer.
    fn into_stage(self) -> (st: Stage)
        ensures
            st.normalizer.spec_name() == self.spec_name(),
            forall|s: Seq<char>, d: Seq<u8>|
                #[trigger] st.normalizer.spec_normalize(s, d) == self.spec_normalize(s, d),
    ;
}

impl IntoStage for BuildIdNormalizer {
    fn into_stage(self) -> (st: Stage) {
        Stage { normalizer: Box::new(self) }
    }
}

impl IntoStage for TimestampNormalizer {
    fn into_stage(self) -> (st: Stage) {
        Stage { normalizer: Box::new(self) }
    }
}

impl IntoStage for AbsolutePathNormalizer {
    fn into_stage(self) -> (st: Stage) {
        Stage { normalizer: Box::new(self) }
    }
}

impl IntoStage for LinkerVersionNormalizer {
    fn into_stage(self) -> (st: Stage) {
        Stage { normalizer: Box::new(self) }
    }
}

/// What a chain of `stages` turns `data` into: each stage in order, applied
/// to what the stages before it produced.
pub open spec fn chain_output(stages: Seq<Stage>, section: Seq<char>, data: Seq<u8>) -> Seq<u8>
    decreases stages.len(),
{
    if stages.len() == 0 {
        data
    } else {
        stages.last().normalizer.spec_normalize(
            section,
            chain_output(stages.drop_last(), section, data),
        )
    }
}

proof fn lemma_stages_push(s: Seq<Stage>, x: Stage)
    ensures
        s.push(x).len() == s.len() + 1,
        s.push(x).drop_last() == s,
        s.push(x).last() == x,
{
}

/// An ordered list of normalizers applied one after the other.
pub struct NormalizerChain {
    inner: Vec<Stage>,
}

impl View for NormalizerChain {
    type V = Seq<Stage>;

    closed spec fn view(&self) -> Seq<Stage> {
        self.inner@
    }
}

/// The bytes a `Cow` holds, borrowed.
fn cow_bytes<'b, 'a>(c: &'b Cow<'a, [u8]>) -> (b: &'b [u8])
    ensures
        b@ == c@,
{
    match c {
        Cow::Borrowed(b) => b,
        Cow::Owned(v) => v.as_slice(),
    }
}

impl NormalizerChain {
    /// An empty chain, which leaves every section as it is.
    pub fn new() -> (c: Self)
        ensures
            c@ == Seq::<Stage>::empty(),
    {
        NormalizerChain { inner: Vec::new() }
    }

    /// The chain with `stage` appended.
    fn push_stage(self, stage: Stage) -> (c: Self)
        ensures
            c@ == self@.push(stage),
    {
        let mut inner = self.inner;
        inner.push(stage);
        NormalizerChain { inner }
    }

    /// The chain with `n` appended as its last stage.
    pub fn push_boxed(self, n: Box<dyn Normalizer>) -> (c: Self)
        ensures
            c@ == self@.push(Stage { normalizer: n }),
    {
        self.push_stage(Stage { normalizer: n })
    }

    /// The chain with `n` appended as its last stage.
    pub fn push<N: IntoStage + 'static>(self, n: N) -> (c: Self)
        ensures
            c@.len() == self@.len() + 1,
            c@.drop_last() == self@,
            c@.last().normalizer.spec_name() == n.spec_name(),
            forall|s: Seq<char>, d: Seq<u8>|
                #[trigger] c@.last().normalizer.spec_normalize(s, d) == n.spec_normalize(s, d),
    {
        let ghost before = self@;
        let ghost g = n;
        let st = n.into_stage();
        let c = self.push_stage(st);
        proof {
            lemma_stages_push(before, st);
        }
        c
    }

    /// Applies every stage in order to `data`, the contents of `section`.
    pub fn apply<'a>(&self, section: &str, data: &'a [u8]) -> (out: Cow<'a, [u8]>)
        ensures
            out@ == chain_output(self@, section@, data@),
            self@.len() == 0 ==> (out matches Cow::Borrowed(b) && b@ == data@),
    {
        let mut result: Cow<'a, [u8]> = Cow::Borrowed(data);
        let mut i: usize = 0;
        while i < self.inner.len()
            invariant
                i <= self.inner@.len(),
                result@ == chain_output(self.inner@.take(i as int), section@, data@),
                i == 0 ==> (result matches Cow::Borrowed(b) && b@ == data@),
            decreases self.inner@.len() - i,
        {
            assert(self.inner@.take(i + 1).drop_last() == self.inner@.take(i as int));
            assert(self.inner@.take(i + 1).last() == self.inner@[i as int]);
            let stage = &self.inner[i];
            match stage.normalizer.normalize(section, cow_bytes(&result)) {
                Cow::Borrowed(_) => {},
                Cow::Owned(owned) => {
                    result = Cow::Owned(owned);
                },
            }
            i = i + 1;
        }
        assert(self.inner@.take(i as int) == self.inner@);
        result
    }

    /// The names of the stages, in order.
    pub fn names(&self) -> (names: Vec<&'static str>)
        ensures
            names@.len() == self@.len(),
            forall|k: int| 0 <= k < self@.len() ==> #[trigger] names@[k]@ == self@[k].normalizer.spec_name(),
    {
        let mut names: Vec<&'static str> = Vec::new();
        let mut i: usize = 0;
        while i < self.inner.len()
            invariant
                i <= self.inner@.len(),
                names@.len() == i,
                forall|k: int| 0 <= k < i ==> #[trigger] names@[k]@ == self.inner@[k].normalizer.spec_name(),
            decreases self.inner@.len() - i,
        {
            names.push(self.inner[i].normalizer.name());
            i = i + 1;
        }
        names
    }
}

impl Default for NormalizerChain {
    /// The built-in normalizers: build id, timestamp, absolute path, linker version.
    fn default() -> (c: Self)
        ensures
            c@.len() == 4,
            forall|s: Seq<char>, d: Seq<u8>|
                #![trigger c@[0].normalizer.spec_normalize(s, d)]
                c@[0].normalizer.spec_normalize(s, d) == BuildIdNormalizer.spec_normalize(s, d),
            forall|s: Seq<char>, d: Seq<u8>|
                #![trigger c@[1].normalizer.spec_normalize(s, d)]
                c@[1].normalizer.spec_normalize(s, d) == TimestampNormalizer.spec_normalize(s, d),
            forall|s: Seq<char>, d: Seq<u8>|
                #![trigger c@[2].normalizer.spec_normalize(s, d)]
                c@[2].normalizer.spec_normalize(s, d) == AbsolutePathNormalizer.spec_normalize(s, d),
            forall|s: Seq<char>, d: Seq<u8>|
                #![trigger c@[3].normalizer.spec_normalize(s, d)]
                c@[3].normalizer.spec_normalize(s, d) == LinkerVersionNormalizer.spec_normalize(s, d),
            forall|s: Seq<char>, d: Seq<u8>| #[trigger] chain_output(c@, s, d) == default_output(s, d),
            c@[0].normalizer.spec_name() == "build-id"@,
            c@[1].normalizer.spec_name() == "timestamp"@,
            c@[2].normalizer.spec_name() == "absolute-path"@,
            c@[3].normalizer.spec_name() == "linker-version"@,
    {
        let t0 = Stage { normalizer: Box::new(BuildIdNormalizer) };
        let t1 = Stage { normalizer: Box::new(TimestampNormalizer) };
        let t2 = Stage { normalizer: Box::new(AbsolutePathNormalizer::new()) };
        let t3 = Stage { normalizer: Box::new(LinkerVersionNormalizer) };
        let c = Self::new().push_stage(t0).push_stage(t1).push_stage(t2).push_stage(t3);
        proof {
            let s0 = Seq::<Stage>::empty();
            lemma_stages_push(s0, t0);
            let s1 = s0.push(t0);
            lemma_stages_push(s1, t1);
            let s2 = s1.push(t1);
            lemma_stages_push(s2, t2);
            let s3 = s2.push(t2);
            lemma_stages_push(s3, t3);
            assert(c@ == s3.push(t3));
            assert(c@[0] == t0);
            assert(c@[1] == t1);
            assert(c@[2] == t2);
            assert(c@[3] == t3);
            assert forall|s: Seq<char>, d: Seq<u8>| #[trigger] chain_output(c@, s, d) == default_output(s, d) by {
                assert(c@.drop_last() == s3);
                assert(s3.drop_last() == s2);
                assert(s2.drop_last() == s1);
                assert(s1.drop_last() == s0);
                assert(chain_output(s0, s, d) == d);
                let o1 = BuildIdNormalizer.spec_normalize(s, d);
                let o2 = TimestampNormalizer.spec_normalize(s, o1);
                let o3 = AbsolutePathNormalizer.spec_normalize(s, o2);
                assert(s1.last() == t0);
                assert(t0.normalizer.spec_normalize(s, d) == o1);
                assert(chain_output(s1, s, d) == o1);
                assert(s2.last() == t1);
                assert(t1.normalizer.spec_normalize(s, o1) == o2);
                assert(chain_output(s2, s, d) == o2);
                assert(s3.last() == t2);
                assert(t2.normalizer.spec_normalize(s, o2) == o3);
                assert(chain_output(s3, s, d) == o3);
                assert(c@.last() == t3);
                assert(t3.normalizer.spec_normalize(s, o3) == default_output(s, d));
            }
        }
        c
    }
}

/// What the built-in chain turns `data` (of section `section`) into.
pub open spec fn default_output(section: Seq<char>, data: Seq<u8>) -> Seq<u8> {
    LinkerVersionNormalizer.spec_normalize(
        section,
        AbsolutePathNormalizer.spec_normalize(
            section,
            TimestampNormalizer.spec_normalize(
                section,
                BuildIdNormalizer.spec_normalize(section, data),
            ),
        ),
    )
}

/// `out` keeps every byte of `data` or clears it to zero, and has its length.
pub open spec fn only_clears(data: Seq<u8>, out: Seq<u8>) -> bool {
    out.len() == data.len() && forall|j: int| 0 <= j < data.len() ==> #[trigger] out[j] == data[j]
        || out[j] == 0
}

proof fn lemma_only_clears_trans(a: Seq<u8>, b: Seq<u8>, c: Seq<u8>)
    requires
        only_clears(a, b),
        only_clears(b, c),
    ensures
        only_clears(a, c),
{
    assert forall|j: int| 0 <= j < a.len() implies #[trigger] c[j] == a[j] || c[j] == 0 by {
        assert(c[j] == b[j] || c[j] == 0);
        assert(b[j] == a[j] || b[j] == 0);
    }
}

proof fn lemma_timestamps_only_clear(s: Seq<u8>, i: int)
    ensures
        only_clears(s, timestamps_masked_from(s, i)),
    decreases s.len() - i,
{
    if i < 0 || i + 4 > s.len() {
    } else if looks_like_timestamp(s, i) {
        let z = zero_span(s, i, i + 4);
        lemma_timestamps_only_clear(z, i + 1);
        lemma_only_clears_trans(s, z, timestamps_masked_from(z, i + 1));
    } else {
        lemma_timestamps_only_clear(s, i + 1);
    }
}

proof fn lemma_clearing_keeps_out_of_range(s: Seq<u8>, t: Seq<u8>, w: int)
    requires
        0 <= w,
        w + 4 <= s.len(),
        only_clears(s, t),
        !looks_like_timestamp(s, w),
    ensures
        !looks_like_timestamp(t, w),
{
    assert(t[w] == s[w] || t[w] == 0);
    assert(t[w + 1] == s[w + 1] || t[w + 1] == 0);
    assert(t[w + 2] == s[w + 2] || t[w + 2] == 0);
    assert(t[w + 3] == s[w + 3] || t[w + 3] == 0);
}

proof fn lemma_masked_windows_clean(s: Seq<u8>, i: int)
    requires
        0 <= i,
    ensures
        forall|w: int| i <= w && w + 4 <= s.len() ==> !#[trigger] looks_like_timestamp(timestamps_masked_from(s, i), w),
    decreases s.len() - i,
{
    if i + 4 > s.len() {
    } else if looks_like_timestamp(s, i) {
        let z = zero_span(s, i, i + 4);
        let r = timestamps_masked_from(z, i + 1);
        lemma_masked_windows_clean(z, i + 1);
        lemma_timestamps_only_clear(z, i + 1);
        assert(r[i] == 0 && r[i + 1] == 0 && r[i + 2] == 0 && r[i + 3] == 0) by {
            assert(z[i] == 0 && z[i + 1] == 0 && z[i + 2] == 0 && z[i + 3] == 0);
        }
        assert(!looks_like_timestamp(r, i));
    } else {
        let r = timestamps_masked_from(s, i + 1);
        lemma_masked_windows_clean(s, i + 1);
        lemma_timestamps_only_clear(s, i + 1);
        lemma_clearing_keeps_out_of_range(s, r, i);
    }
}

proof fn lemma_clean_is_fixed(s: Seq<u8>, i: int)
    requires
        0 <= i,
        forall|w: int| i <= w && w + 4 <= s.len() ==> !#[trigger] looks_like_timestamp(s, w),
    ensures
        timestamps_masked_from(s, i) == s,
    decreases s.len() - i,
{
    if i + 4 <= s.len() {
        assert(!looks_like_timestamp(s, i));
        lemma_clean_is_fixed(s, i + 1);
    }
}

/// Masking timestamps a second time changes nothing.
pub proof fn lemma_timestamp_masking_is_idempotent(section: Seq<char>, data: Seq<u8>)
    ensures
        TimestampNormalizer.spec_normalize(section, TimestampNormalizer.spec_normalize(section, data))
            == TimestampNormalizer.spec_normalize(section, data),
{
    if is_timestamp_section(section) {
        let r = timestamps_masked_from(data, 0);
        lemma_masked_windows_clean(data, 0);
        lemma_timestamps_only_clear(data, 0);
        lemma_clean_is_fixed(r, 0);
    }
}

proof fn lemma_banners_only_clear(s: Seq<u8>, i: int)
    ensures
        only_clears(s, banners_masked_from(s, i)),
    decreases s.len() - i,
{
    if i < 0 || i >= s.len() {
    } else if banner_at(s, i) {
        let z = zero_span(s, i, c_string_end(s, i));
        lemma_banners_only_clear(z, i + 1);
        lemma_only_clears_trans(s, z, banners_masked_from(z, i + 1));
    } else {
        lemma_banners_only_clear(s, i + 1);
    }
}

proof fn lemma_keyword_nonzero(k: int)
    requires
        0 <= k < 4,
    ensures
        banner_keyword(k).len() > 0,
        forall|m: int| 0 <= m < banner_keyword(k).len() ==> #[trigger] banner_keyword(k)[m] != 0,
{
    let kw = banner_keyword(k);
    if k == 0 {
        assert(kw[0] != 0 && kw[1] != 0 && kw[2] != 0 && kw[3] != 0 && kw[4] != 0 && kw[5] != 0 && kw[6] != 0);
    } else if k == 1 {
        assert(kw[0] != 0 && kw[1] != 0 && kw[2] != 0 && kw[3] != 0);
    } else if k == 2 {
        assert(kw[0] != 0 && kw[1] != 0 && kw[2] != 0 && kw[3] != 0 && kw[4] != 0 && kw[5] != 0 && kw[6] != 0);
        assert(kw[7] != 0 && kw[8] != 0 && kw[9] != 0 && kw[10] != 0 && kw[11] != 0 && kw[12] != 0);
    } else {
        assert(kw[0] != 0 && kw[1] != 0 && kw[2] != 0 && kw[3] != 0);
    }
}

/// A banner keyword starts inside the data, at a byte that is not zero.
proof fn lemma_banner_start(s: Seq<u8>, p: int)
    requires
        0 <= p <= s.len(),
        banner_at(s, p),
    ensures
        p < s.len(),
        s[p] != 0,
{
    let k = choose|k: int| 0 <= k < 4 && #[trigger] has_prefix(s.skip(p), banner_keyword(k));
    lemma_keyword_nonzero(k);
    assert(s.skip(p).len() == s.len() - p);
    assert(s.skip(p).take(banner_keyword(k).len() as int)[0] == banner_keyword(k)[0]);
    assert(s.skip(p)[0] == s[p]);
}

proof fn lemma_nul_from_same_suffix(s: Seq<u8>, z: Seq<u8>, p: int)
    requires
        0 <= p,
        s.len() == z.len(),
        forall|q: int| p <= q < s.len() ==> #[trigger] s[q] == z[q],
    ensures
        nul_from(s, p) == nul_from(z, p),
    decreases s.len() - p,
{
    if p < s.len() {
        lemma_nul_from_same_suffix(s, z, p + 1);
    }
}

/// Whether a banner starts at `p`, and where its C string ends, depend only
/// on the bytes from `p` on.
proof fn lemma_banner_same_suffix(s: Seq<u8>, z: Seq<u8>, p: int)
    requires
        0 <= p <= s.len(),
        s.len() == z.len(),
        forall|q: int| p <= q < s.len() ==> #[trigger] s[q] == z[q],
    ensures
        banner_at(s, p) == banner_at(z, p),
        c_string_end(s, p) == c_string_end(z, p),
{
    assert(s.skip(p) =~= z.skip(p));
    lemma_nul_from_same_suffix(s, z, p);
}

proof fn lemma_nul_from_within(s: Seq<u8>, i: int, p: int)
    requires
        0 <= i <= p <= nul_from(s, i),
    ensures
        nul_from(s, p) == nul_from(s, i),
    decreases p - i,
{
    if i < p {
        lemma_nul_from_bounds(s, i);
        assert(s[i] != 0);
        lemma_nul_from_within(s, i + 1, p);
    }
}

/// `j` lies in the C string of a banner that starts at `p` in `s`.
pub open spec fn in_banner(s: Seq<u8>, p: int, j: int) -> bool {
    banner_at(s, p) && p <= j < c_string_end(s, p)
}

proof fn lemma_banners_masked_exactly(s: Seq<u8>, i: int)
    requires
        0 <= i,
    ensures
        forall|p: int, j: int|
            i <= p < s.len() && #[trigger] in_banner(s, p, j) ==> banners_masked_from(s, i)[j] == 0,
        forall|j: int|
            0 <= j < s.len() && #[trigger] banners_masked_from(s, i)[j] != s[j] ==> exists|p: int|
                i <= p <= j && #[trigger] in_banner(s, p, j),
    decreases s.len() - i,
{
    let r = banners_masked_from(s, i);
    lemma_banners_only_clear(s, i);
    if i >= s.len() {
    } else if banner_at(s, i) {
        let e = c_string_end(s, i);
        let z = zero_span(s, i, e);
        lemma_nul_from_bounds(s, i);
        lemma_banner_start(s, i);
        lemma_banners_masked_exactly(z, i + 1);
        lemma_banners_only_clear(z, i + 1);
        assert(r == banners_masked_from(z, i + 1));
        assert(i < e <= s.len());
        assert forall|p: int, j: int| i <= p < s.len() && #[trigger] in_banner(s, p, j) implies r[j] == 0 by {
            if p == i {
                assert(z[j] == 0);
                assert(r[j] == z[j] || r[j] == 0);
            } else if p < e {
                lemma_banner_start(s, p);
                assert(p < nul_from(s, i));
                lemma_nul_from_within(s, i, p);
                assert(z[j] == 0);
                assert(r[j] == z[j] || r[j] == 0);
            } else {
                lemma_banner_same_suffix(s, z, p);
                assert(in_banner(z, p, j));
            }
        }
        assert forall|j: int| 0 <= j < s.len() && #[trigger] r[j] != s[j] implies exists|p: int|
            i <= p <= j && #[trigger] in_banner(s, p, j) by {
            if i <= j < e {
                assert(in_banner(s, i, j));
            } else {
                assert(z[j] == s[j]);
                assert(banners_masked_from(z, i + 1)[j] != z[j]);
                let p = choose|p: int| i + 1 <= p <= j && #[trigger] in_banner(z, p, j);
                if p < e {
                    lemma_banner_start(z, p);
                    assert(z[p] == 0);
                } else {
                    lemma_banner_same_suffix(s, z, p);
                    assert(in_banner(s, p, j));
                }
            }
        }
    } else {
        lemma_banners_masked_exactly(s, i + 1);
        assert forall|p: int, j: int| i <= p < s.len() && #[trigger] in_banner(s, p, j) implies r[j] == 0 by {
            assert(p != i);
        }
        assert forall|j: int| 0 <= j < s.len() && #[trigger] r[j] != s[j] implies exists|p: int|
            i <= p <= j && #[trigger] in_banner(s, p, j) by {
            assert(banners_masked_from(s, i + 1)[j] != s[j]);
            let p = choose|p: int| i + 1 <= p <= j && #[trigger] in_banner(s, p, j);
        }
    }
}

/// Every banner of a `.comment` section is masked, wherever it stands: each
/// byte from a banner keyword to the end of its C string becomes zero, no
/// other byte changes, and no banner keyword is left in the output.
pub proof fn lemma_every_banner_is_masked(data: Seq<u8>)
    ensures
        LinkerVersionNormalizer.spec_normalize(".comment"@, data).len() == data.len(),
        forall|p: int, j: int|
            0 <= p < data.len() && #[trigger] in_banner(data, p, j) ==> LinkerVersionNormalizer.spec_normalize(
                ".comment"@,
                data,
            )[j] == 0,
        forall|j: int|
            0 <= j < data.len() && #[trigger] LinkerVersionNormalizer.spec_normalize(".comment"@, data)[j] != data[j]
                ==> exists|p: int| 0 <= p <= j && #[trigger] in_banner(data, p, j),
        forall|p: int, k: int|
            0 <= p < data.len() && 0 <= k < 4 ==> !#[trigger] has_prefix(
                LinkerVersionNormalizer.spec_normalize(".comment"@, data).skip(p),
                banner_keyword(k),
            ),
{
    let out = LinkerVersionNormalizer.spec_normalize(".comment"@, data);
    assert(out == banners_masked_from(data, 0));
    lemma_banners_only_clear(data, 0);
    lemma_banners_masked_exactly(data, 0);
    assert forall|p: int, k: int| 0 <= p < data.len() && 0 <= k < 4 implies !#[trigger] has_prefix(out.skip(p), banner_keyword(k)) by {
        if has_prefix(out.skip(p), banner_keyword(k)) {
            let kw = banner_keyword(k);
            lemma_keyword_nonzero(k);
            assert forall|m: int| 0 <= m < kw.len() implies #[trigger] data.skip(p).take(kw.len() as int)[m] == kw[m] by {
                assert(out.skip(p).take(kw.len() as int)[m] == kw[m]);
                assert(out[p + m] == kw[m]);
                assert(out[p + m] == data[p + m] || out[p + m] == 0);
            }
            assert(data.skip(p).take(kw.len() as int) =~= kw);
            assert(has_prefix(data.skip(p), banner_keyword(k)));
            assert(banner_at(data, p));
            lemma_nul_from_bounds(data, p);
            assert(in_banner(data, p, p));
            assert(out[p] == 0);
            assert(out.skip(p).take(kw.len() as int)[0] == kw[0]);
        }
    }
}

/// The build-id, timestamp and linker-version normalizers never move, add or
/// remove bytes: each output byte is the input byte or zero.
pub proof fn lemma_masking_only_clears_bytes(section: Seq<char>, data: Seq<u8>)
    ensures
        only_clears(data, BuildIdNormalizer.spec_normalize(section, data)),
        only_clears(data, TimestampNormalizer.spec_normalize(section, data)),
        only_clears(data, LinkerVersionNormalizer.spec_normalize(section, data)),
{
    lemma_timestamps_only_clear(data, 0);
    lemma_banners_only_clear(data, 0);
}

/// Build-identifier sections of equal length normalize to the same bytes,
/// whatever identifiers they hold.
pub proof fn lemma_build_ids_normalize_equal(section: Seq<char>, a: Seq<u8>, b: Seq<u8>)
    requires
        is_build_id_section(section),
        a.len() == b.len(),
    ensures
        BuildIdNormalizer.spec_normalize(section, a) == BuildIdNormalizer.spec_normalize(section, b),
{
}

/// The built-in chain leaves every section other than the note, build-id,
/// comment and debug-string sections unchanged.
pub proof fn lemma_default_leaves_other_sections(section: Seq<char>, data: Seq<u8>)
    requires
        !is_build_id_section(section),
        !is_path_section(section),
        !is_timestamp_section(section),
    ensures
        default_output(section, data) == data,
{
}

/// Two builds whose build-identifier section differs only in its bytes,
/// not its length, come out of the built-in chain the same.
pub proof fn lemma_build_id_differences_vanish(section: Seq<char>, a: Seq<u8>, b: Seq<u8>)
    requires
        is_build_id_section(section),
        a.len() == b.len(),
    ensures
        default_output(section, a) == default_output(section, b),
{
    assert(BuildIdNormalizer.spec_normalize(section, a) == BuildIdNormalizer.spec_normalize(section, b));
}

/// A chain with one more stage applies that stage to what the shorter
/// chain produces.
pub proof fn lemma_longer_chain_applies_last_stage(stages: Seq<Stage>, x: Stage, section: Seq<char>, data: Seq<u8>)
    ensures
        chain_output(stages.push(x), section, data) == x.normalizer.spec_normalize(
            section,
            chain_output(stages, section, data),
        ),
{
    lemma_stages_push(stages, x);
}

/// An empty chain leaves every section unchanged.
pub proof fn lemma_empty_chain_is_identity(section: Seq<char>, data: Seq<u8>)
    ensures
        chain_output(Seq::<Stage>::empty(), section, data) == data,
{
}

// ------------------------------------------------------- chain selection

/// The name of the `k`-th built-in normalizer.
pub open spec fn default_name(k: int) -> Seq<char> {
    if k == 0 {
        "build-id"@
    } else if k == 1 {
        "timestamp"@
    } else if k == 2 {
        "absolute-path"@
    } else {
        "linker-version"@
    }
}

/// What the `k`-th built-in normalizer turns `data` into.
pub open spec fn default_normalize(k: int, section: Seq<char>, data: Seq<u8>) -> Seq<u8> {
    if k == 0 {
        BuildIdNormalizer.spec_normalize(section, data)
    } else if k == 1 {
        TimestampNormalizer.spec_normalize(section, data)
    } else if k == 2 {
        AbsolutePathNormalizer.spec_normalize(section, data)
    } else {
        LinkerVersionNormalizer.spec_normalize(section, data)
    }
}

/// The positions, among the first `n` built-in normalizers, of those whose
/// name is not in `skip`, in order.
pub open spec fn kept_defaults(skip: Seq<Seq<char>>, n: int) -> Seq<int>
    decreases n,
{
    if n <= 0 {
        Seq::empty()
    } else if skip.contains(default_name(n - 1)) {
        kept_defaults(skip, n - 1)
    } else {
        kept_defaults(skip, n - 1).push(n - 1)
    }
}

/// A built-in normalizer among the first `n` is kept exactly when its name
/// is not skipped, and the kept ones stay in their usual order.
pub proof fn lemma_skipped_normalizers_are_left_out(skip: Seq<Seq<char>>, n: int)
    requires
        0 <= n <= 4,
    ensures
        forall|k: int| 0 <= k < n ==> (#[trigger] kept_defaults(skip, n).contains(k) <==> !skip.contains(default_name(k))),
        forall|i: int, j: int|
            0 <= i < j < kept_defaults(skip, n).len() ==> kept_defaults(skip, n)[i] < kept_defaults(skip, n)[j],
        forall|i: int| 0 <= i < kept_defaults(skip, n).len() ==> 0 <= #[trigger] kept_defaults(skip, n)[i] < n,
    decreases n,
{
    if n > 0 {
        lemma_skipped_normalizers_are_left_out(skip, n - 1);
        let p = kept_defaults(skip, n - 1);
        if !skip.contains(default_name(n - 1)) {
            let q = p.push(n - 1);
            assert(kept_defaults(skip, n) == q);
            assert forall|k: int| 0 <= k < n implies (#[trigger] q.contains(k) <==> !skip.contains(default_name(k))) by {
                if k < n - 1 {
                    if q.contains(k) {
                        let w = choose|w: int| 0 <= w < q.len() && q[w] == k;
                        if w < p.len() {
                            assert(p[w] == k);
                        }
                    }
                    if p.contains(k) {
                        let w = choose|w: int| 0 <= w < p.len() && p[w] == k;
                        assert(q[w] == k);
                    }
                } else {
                    assert(q[q.len() - 1] == k);
                }
            }
        } else {
            assert forall|k: int| 0 <= k < n implies (#[trigger] p.contains(k) <==> !skip.contains(default_name(k))) by {
                if k == n - 1 && p.contains(k) {
                    let w = choose|w: int| 0 <= w < p.len() && p[w] == k;
                }
            }
        }
    }
}

/// Whether `stages` are the built-in normalizers at positions `ks`.
pub open spec fn stages_are(stages: Seq<Stage>, ks: Seq<int>) -> bool {
    &&& stages.len() == ks.len()
    &&& forall|i: int| 0 <= i < ks.len() ==> #[trigger] stages[i].normalizer.spec_name() == default_name(ks[i])
    &&& forall|i: int, s: Seq<char>, d: Seq<u8>|
        0 <= i < ks.len() ==> #[trigger] stages[i].normalizer.spec_normalize(s, d) == default_normalize(ks[i], s, d)
}

proof fn lemma_stages_are_push(stages: Seq<Stage>, ks: Seq<int>, x: Stage, k: int)
    requires
        stages_are(stages, ks),
        x.normalizer.spec_name() == default_name(k),
        forall|s: Seq<char>, d: Seq<u8>| #[trigger] x.normalizer.spec_normalize(s, d) == default_normalize(k, s, d),
    ensures
        stages_are(stages.push(x), ks.push(k)),
{
    let st = stages.push(x);
    let kk = ks.push(k);
    assert forall|i: int| 0 <= i < kk.len() implies #[trigger] st[i].normalizer.spec_name() == default_name(kk[i]) by {
        if i < ks.len() {
            assert(st[i] == stages[i]);
        }
    }
    assert forall|i: int, s: Seq<char>, d: Seq<u8>| 0 <= i < kk.len() implies #[trigger] st[i].normalizer.spec_normalize(
        s,
        d,
    ) == default_normalize(kk[i], s, d) by {
        if i < ks.len() {
            assert(st[i] == stages[i]);
        } else {
            assert(st[i] == x);
        }
    }
}

/// Whether `name` is one of `names`.
fn names_contain(names: &Vec<String>, name: &str) -> (b: bool)
    ensures
        b == crate::bytes::string_views(names@).contains(name@),
{
    let mut i: usize = 0;
    while i < names.len()
        invariant
            i <= names@.len(),
            forall|k: int| 0 <= k < i ==> names@[k]@ != name@,
        decreases names@.len() - i,
    {
        if str_equals(names[i].as_str(), name) {
            assert(crate::bytes::string_views(names@)[i as int] == name@);
            return true;
        }
        i = i + 1;
    }
    proof {
        if crate::bytes::string_views(names@).contains(name@) {
            let k = choose|k: int| 0 <= k < names@.len() && #[trigger] crate::bytes::string_views(names@)[k] == name@;
            assert(names@[k]@ == name@);
        }
    }
    false
}

impl NormalizerChain {
    /// The built-in normalizers in their usual order, leaving out those
    /// whose name is in `skip`.
    pub fn defaults_except(skip: &Vec<String>) -> (c: Self)
        ensures
            stages_are(c@, kept_defaults(crate::bytes::string_views(skip@), 4)),
    {
        let ghost sv = crate::bytes::string_views(skip@);
        let mut c = Self::new();
        proof {
            reveal_with_fuel(kept_defaults, 5);
            assert(stages_are(c@, kept_defaults(sv, 0)));
        }
        if !names_contain(skip, "build-id") {
            let st = Stage { normalizer: Box::new(BuildIdNormalizer) };
            let ghost before = c@;
            c = c.push_stage(st);
            proof { lemma_stages_are_push(before, kept_defaults(sv, 0), st, 0); }
        }
        assert(stages_are(c@, kept_defaults(sv, 1)));
        if !names_contain(skip, "timestamp") {
            let st = Stage { normalizer: Box::new(TimestampNormalizer) };
            let ghost before = c@;
            c = c.push_stage(st);
            proof { lemma_stages_are_push(before, kept_defaults(sv, 1), st, 1); }
        }
        assert(stages_are(c@, kept_defaults(sv, 2)));
        if !names_contain(skip, "absolute-path") {
            let st = Stage { normalizer: Box::new(AbsolutePathNormalizer::new()) };
            let ghost before = c@;
            c = c.push_stage(st);
            proof { lemma_stages_are_push(before, kept_defaults(sv, 2), st, 2); }
        }
        assert(stages_are(c@, kept_defaults(sv, 3)));
        if !names_contain(skip, "linker-version") {
            let st = Stage { normalizer: Box::new(LinkerVersionNormalizer) };
            let ghost before = c@;
            c = c.push_stage(st);
            proof { lemma_stages_are_push(before, kept_defaults(sv, 3), st, 3); }
        }
        c
    }

    /// The chain a comparison runs with: none when normalizing is off,
    /// otherwise the built-in normalizers without those named in `skip`.
    pub fn for_options(no_normalize: bool, skip: &Vec<String>) -> (c: Self)
        ensures
            no_normalize ==> c@.len() == 0,
            !no_normalize ==> stages_are(c@, kept_defaults(crate::bytes::string_views(skip@), 4)),
    {
        if no_normalize {
            Self::new()
        } else {
            Self::defaults_except(skip)
        }
    }
}

} // verus!
