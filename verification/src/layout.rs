//! The pattern-language compiler: parses a directory-pattern string into an
//! ordered sequence of path components.
//!
//! A pattern is a path whose segments (separated by `/` or `\`) are either
//! literal directory-name fragments or operators. A segment is an operator
//! exactly when it is fully wrapped in `[` `]`. The album operator is
//! `[A<min>?(.<max>?)?]`, the group operator `[G<depth>?]`; any other
//! bracketed segment is rejected with the offending segment's character
//! offset and length. Exactly one album operator is required per pattern.
//! Leading literals are anchored at the filesystem root, so every literal is
//! kept as its non-empty segments.

use vstd::prelude::*;

verus! {

/// A pattern-compilation failure, carrying the offending substring's
/// position for diagnostics.
#[derive(Debug, Clone, PartialEq)]
pub struct LayoutError {
    path: Option<String>,
    start: usize,
    length: Option<usize>,
    message: String,
}

/// Mathematical model of a [`LayoutError`].
pub struct LayoutErrorView {
    pub path: Option<Seq<char>>,
    pub start: int,
    pub length: Option<int>,
    pub message: Seq<char>,
}

impl View for LayoutError {
    type V = LayoutErrorView;

    closed spec fn view(&self) -> LayoutErrorView {
        LayoutErrorView {
            path: match self.path {
                Some(p) => Some(p@),
                None => None,
            },
            start: self.start as int,
            length: match self.length {
                Some(l) => Some(l as int),
                None => None,
            },
            message: self.message@,
        }
    }
}

impl LayoutError {
    pub fn new(path: Option<&str>, start: usize, length: Option<usize>, message: &str) -> (r:
        LayoutError)
        ensures
            r@.start == start,
            r@.message == message@,
            r@.path == match path {
                Some(p) => Some(p@),
                None => None::<Seq<char>>,
            },
            r@.length == match length {
                Some(l) => Some(l as int),
                None => None::<int>,
            },
    {
        LayoutError {
            path: match path {
                Some(p) => Some(p.to_owned()),
                None => None,
            },
            start,
            length,
            message: message.to_owned(),
        }
    }

    /// The character offset of the offending substring.
    pub fn start(&self) -> (r: usize)
        ensures
            r == self@.start,
    {
        self.start
    }

    /// The length of the offending substring, where one is identified.
    pub fn length(&self) -> (r: Option<usize>)
        ensures
            self@.length == match r {
                Some(l) => Some(l as int),
                None => None::<int>,
            },
    {
        self.length
    }

    /// The diagnostic message.
    pub fn message(&self) -> (r: &str)
        ensures
            r@ == self@.message,
    {
        self.message.as_str()
    }

    /// The pattern that failed to compile, where one is recorded.
    pub fn path(&self) -> (r: Option<&str>)
        ensures
            self@.path == match r {
                Some(p) => Some(p@),
                None => None::<Seq<char>>,
            },
    {
        match &self.path {
            Some(p) => Some(p.as_str()),
            None => None,
        }
    }
}

/// How an album operator selects directory depths.
#[derive(Debug, Clone, Copy, PartialEq, Eq, Structural)]
pub enum AlbumType {
    /// Direct children of the anchor (depth exactly 1).
    Single,
    /// Directories at exactly depth `min`.
    Depth,
    /// Directories at depths `min` through `max`.
    Range,
}

/// The single mandatory album operator of a pattern.
#[derive(Debug, Clone, Copy, PartialEq, Eq, Structural)]
pub struct Album {
    pub min: usize,
    pub max: usize,
    pub tipe: AlbumType,
}

/// A group operator: one grouping level of directories at depth `depth`.
#[derive(Debug, Clone, Copy, PartialEq, Eq, Structural)]
pub struct Group {
    pub depth: usize,
}

/// One component of a compiled pattern.
#[derive(Debug, Clone, PartialEq)]
pub enum PathComponent {
    Album(Album),
    Group(Group),
    /// A literal path fragment, kept as its non-empty segments.
    Dir(Vec<String>),
}

/// Mathematical model of a [`PathComponent`].
pub enum PathComponentView {
    Album(Album),
    Group(Group),
    Dir(Seq<Seq<char>>),
}

impl View for PathComponent {
    type V = PathComponentView;

    open spec fn view(&self) -> PathComponentView {
        match self {
            PathComponent::Album(a) => PathComponentView::Album(*a),
            PathComponent::Group(g) => PathComponentView::Group(*g),
            PathComponent::Dir(segs) => PathComponentView::Dir(segs.deep_view()),
        }
    }
}

impl DeepView for PathComponent {
    type V = PathComponentView;

    open spec fn deep_view(&self) -> PathComponentView {
        self.view()
    }
}

/// A compiled pattern: the ordered component sequence.
pub type DirectoryPath = Vec<PathComponent>;

/// The compiled layout: one list of patterns for raw roots and one for
/// render roots.
#[derive(Debug, Clone)]
pub struct DirectoryLayout {
    pub raw_dirs: Vec<DirectoryPath>,
    pub render_dirs: Vec<DirectoryPath>,
}

/// Is `c` a path-segment separator?
pub open spec fn is_sep(c: char) -> bool {
    c == '/' || c == '\\'
}

/// The segments of `s`, split on separators; splitting keeps empty segments,
/// so the result always holds at least one segment.
pub open spec fn split_path(s: Seq<char>) -> Seq<Seq<char>>
    decreases s.len(),
{
    if s.len() == 0 {
        seq![Seq::<char>::empty()]
    } else if is_sep(s[0]) {
        seq![Seq::<char>::empty()] + split_path(s.skip(1))
    } else {
        let rest = split_path(s.skip(1));
        seq![seq![s[0]] + rest[0]] + rest.skip(1)
    }
}

proof fn lemma_split_path_len(s: Seq<char>)
    ensures
        split_path(s).len() >= 1,
    decreases s.len(),
{
    if s.len() > 0 && !is_sep(s[0]) {
        lemma_split_path_len(s.skip(1));
    }
}

/// If the first `k` characters of `s` hold no separator and `s` either ends
/// there or has a separator at `k`, then `s`'s first segment is exactly those
/// `k` characters.
proof fn lemma_split_path_first(s: Seq<char>, k: int)
    requires
        0 <= k <= s.len(),
        forall|j: int| 0 <= j < k ==> !is_sep(#[trigger] s[j]),
        k == s.len() || is_sep(s[k]),
    ensures
        k == s.len() ==> split_path(s) == seq![s],
        k < s.len() ==> split_path(s) == seq![s.take(k)] + split_path(s.skip(k + 1)),
    decreases k,
{
    lemma_split_path_len(s);
    if k == 0 {
        if s.len() == 0 {
            assert(s =~= Seq::<char>::empty());
            assert(split_path(s) == seq![s]);
        } else {
            assert(is_sep(s[0]));
            assert(s.take(0) =~= Seq::<char>::empty());
            assert(split_path(s) =~= seq![s.take(0)] + split_path(s.skip(1)));
        }
    } else {
        assert(!is_sep(s[0]));
        let t = s.skip(1);
        assert(forall|j: int| 0 <= j < k - 1 ==> !is_sep(#[trigger] t[j]));
        assert(k - 1 == t.len() || is_sep(t[k - 1]));
        lemma_split_path_first(t, k - 1);
        lemma_split_path_len(t);
        let rest = split_path(t);
        if k == s.len() {
            assert(rest == seq![t]);
            assert(seq![s[0]] + rest[0] =~= s);
            assert(rest.skip(1) =~= Seq::<Seq<char>>::empty());
            assert(split_path(s) =~= seq![s]);
        } else {
            assert(rest == seq![t.take(k - 1)] + split_path(t.skip(k)));
            assert(rest[0] == t.take(k - 1));
            assert(seq![s[0]] + rest[0] =~= s.take(k));
            assert(rest.skip(1) =~= split_path(t.skip(k)));
            assert(t.skip(k) =~= s.skip(k + 1));
            assert(split_path(s) =~= seq![s.take(k)] + split_path(s.skip(k + 1)));
        }
    }
}

/// Is `c` a decimal digit?
pub open spec fn is_digit(c: char) -> bool {
    ('0' as int) <= (c as int) && (c as int) <= ('9' as int)
}

/// Are all characters of `s` decimal digits?
pub open spec fn all_digits(s: Seq<char>) -> bool {
    forall|i: int| 0 <= i < s.len() ==> is_digit(#[trigger] s[i])
}

/// The number of leading decimal digits of `s`.
pub open spec fn digit_prefix_len(s: Seq<char>) -> int
    decreases s.len(),
{
    if s.len() > 0 && is_digit(s[0]) {
        1 + digit_prefix_len(s.skip(1))
    } else {
        0
    }
}

proof fn lemma_digit_prefix(s: Seq<char>, k: int)
    requires
        0 <= k <= s.len(),
        forall|j: int| 0 <= j < k ==> is_digit(#[trigger] s[j]),
        k == s.len() || !is_digit(s[k]),
    ensures
        digit_prefix_len(s) == k,
    decreases k,
{
    if k == 0 {
    } else {
        let t = s.skip(1);
        assert(forall|j: int| 0 <= j < k - 1 ==> is_digit(#[trigger] t[j]));
        assert(k - 1 == t.len() || !is_digit(t[k - 1]));
        lemma_digit_prefix(t, k - 1);
    }
}

/// The value of a decimal digit string (most significant digit first).
pub open spec fn digits_val(s: Seq<char>) -> int
    decreases s.len(),
{
    if s.len() == 0 {
        0
    } else {
        digits_val(s.drop_last()) * 10 + (s.last() as int - '0' as int)
    }
}

/// The number a digit string names, or 1 if it is empty or does not fit in
/// `usize` (a missing or unusable depth falls back to the default of 1).
pub open spec fn num_or_one(d: Seq<char>) -> usize {
    if d.len() == 0 || digits_val(d) > usize::MAX as int {
        1
    } else {
        digits_val(d) as usize
    }
}

/// The number a digit string names, or `usize::MAX` if it is empty or does
/// not fit (a missing maximum depth means unbounded).
pub open spec fn num_or_unbounded(d: Seq<char>) -> usize {
    if d.len() == 0 || digits_val(d) > usize::MAX as int {
        usize::MAX
    } else {
        digits_val(d) as usize
    }
}

/// Is this segment an operator, i.e. fully wrapped in `[` `]`?
pub open spec fn is_operator_seg(seg: Seq<char>) -> bool {
    seg.len() >= 1 && seg[0] == '[' && seg[seg.len() - 1] == ']'
}

/// The album operator named by the bracket body `body` (the characters after
/// `A`, before the closing bracket), if the body is well-formed: optional
/// minimum-depth digits, then optionally `.` and optional maximum-depth
/// digits.
pub open spec fn spec_album_of(body: Seq<char>) -> Option<Album> {
    let p = digit_prefix_len(body);
    let d1 = body.take(p);
    let rest = body.skip(p);
    if rest.len() == 0 {
        let min = num_or_one(d1);
        Some(
            Album {
                min,
                max: min,
                tipe: if min == 1 {
                    AlbumType::Single
                } else {
                    AlbumType::Depth
                },
            },
        )
    } else if rest[0] == '.' && all_digits(rest.skip(1)) {
        Some(
            Album { min: num_or_one(d1), max: num_or_unbounded(rest.skip(1)), tipe: AlbumType::Range },
        )
    } else {
        None
    }
}

/// The group operator named by the bracket body `body` (the characters after
/// `G`), if the body is well-formed: optional depth digits.
pub open spec fn spec_group_of(body: Seq<char>) -> Option<Group> {
    if all_digits(body) {
        Some(Group { depth: num_or_one(body) })
    } else {
        None
    }
}

/// The component named by an operator segment, or `None` if the bracketed
/// segment matches neither the album nor the group grammar.
pub open spec fn classify_operator(seg: Seq<char>) -> Option<PathComponentView>
    recommends
        is_operator_seg(seg),
{
    let inner = seg.subrange(1, seg.len() - 1);
    if inner.len() >= 1 && inner[0] == 'A' {
        match spec_album_of(inner.skip(1)) {
            Some(a) => Some(PathComponentView::Album(a)),
            None => None,
        }
    } else if inner.len() >= 1 && inner[0] == 'G' {
        match spec_group_of(inner.skip(1)) {
            Some(g) => Some(PathComponentView::Group(g)),
            None => None,
        }
    } else {
        None
    }
}

/// The parser's intermediate state: the components emitted so far, the
/// pending literal buffer, whether any literal segment (even an empty one)
/// is buffered, and how many album operators were seen.
pub struct ParseState {
    pub comps: Seq<PathComponentView>,
    pub cache: Seq<Seq<char>>,
    pub pending: bool,
    pub albums: int,
}

impl ParseState {
    pub open spec fn init() -> ParseState {
        ParseState { comps: Seq::empty(), cache: Seq::empty(), pending: false, albums: 0 }
    }
}

/// Flush the pending literal buffer as a `Dir` component, if one is pending.
pub open spec fn flush_cache(st: ParseState) -> ParseState {
    if st.pending {
        ParseState {
            comps: st.comps.push(PathComponentView::Dir(st.cache)),
            cache: Seq::empty(),
            pending: false,
            albums: st.albums,
        }
    } else {
        st
    }
}

/// The diagnostic for a bracketed segment matching neither operator grammar.
pub open spec fn invalid_op_error(whole: Seq<char>, start: int, length: int) -> LayoutErrorView {
    LayoutErrorView {
        path: Some(whole),
        start,
        length: Some(length),
        message: "Invalid operator.\nSee README.md for correct operator usage."@,
    }
}

/// The diagnostic for a pattern with no album operator.
pub open spec fn missing_album_error(whole: Seq<char>) -> LayoutErrorView {
    LayoutErrorView {
        path: Some(whole),
        start: 0,
        length: None,
        message: "Missing Album operator."@,
    }
}

/// The diagnostic for a pattern with more than one album operator.
pub open spec fn multiple_album_error(whole: Seq<char>) -> LayoutErrorView {
    LayoutErrorView {
        path: Some(whole),
        start: 0,
        length: None,
        message: "Multiple Album operators.\nOnly one Album operator is allowed."@,
    }
}

/// What one segment (starting at character offset `off` of the whole
/// pattern) does to the parser state. An operator first flushes the literal
/// buffer, then appends its component; a literal segment marks the buffer
/// pending and appends itself if non-empty.
pub open spec fn seg_step(whole: Seq<char>, st: ParseState, seg: Seq<char>, off: int) -> Result<
    ParseState,
    LayoutErrorView,
> {
    if is_operator_seg(seg) {
        let st1 = flush_cache(st);
        match classify_operator(seg) {
            Some(PathComponentView::Album(a)) => Ok(
                ParseState {
                    comps: st1.comps.push(PathComponentView::Album(a)),
                    cache: st1.cache,
                    pending: st1.pending,
                    albums: st1.albums + 1,
                },
            ),
            Some(c) => Ok(
                ParseState {
                    comps: st1.comps.push(c),
                    cache: st1.cache,
                    pending: st1.pending,
                    albums: st1.albums,
                },
            ),
            None => Err(invalid_op_error(whole, off, seg.len() as int)),
        }
    } else {
        Ok(
            ParseState {
                comps: st.comps,
                cache: if seg.len() > 0 {
                    st.cache.push(seg)
                } else {
                    st.cache
                },
                pending: true,
                albums: st.albums,
            },
        )
    }
}

/// Fold [`seg_step`] over the remaining segments, `segs[0]` starting at
/// character offset `off`.
pub open spec fn spec_parse_segs(
    whole: Seq<char>,
    segs: Seq<Seq<char>>,
    off: int,
    st: ParseState,
) -> Result<ParseState, LayoutErrorView>
    decreases segs.len(),
{
    if segs.len() == 0 {
        Ok(st)
    } else {
        match seg_step(whole, st, segs[0], off) {
            Ok(st1) => spec_parse_segs(whole, segs.skip(1), off + segs[0].len() + 1, st1),
            Err(e) => Err(e),
        }
    }
}

/// The compiled component sequence of a pattern string, or the first
/// diagnostic: the earliest invalid operator wins; otherwise a trailing
/// literal is flushed and the album-operator count must be exactly one.
pub open spec fn spec_parse_path(s: Seq<char>) -> Result<Seq<PathComponentView>, LayoutErrorView> {
    match spec_parse_segs(s, split_path(s), 0, ParseState::init()) {
        Err(e) => Err(e),
        Ok(st) => {
            let st1 = flush_cache(st);
            if st1.albums > 1 {
                Err(multiple_album_error(s))
            } else if st1.albums < 1 {
                Err(missing_album_error(s))
            } else {
                Ok(st1.comps)
            }
        },
    }
}

/// The characters of `s`, as a vector.
fn chars_of(s: &str) -> (v: Vec<char>)
    ensures
        v@ == s@,
{
    let n = s.unicode_len();
    let mut v: Vec<char> = Vec::new();
    let mut i: usize = 0;
    while i < n
        invariant
            i <= n,
            n == s@.len(),
            v@ == s@.take(i as int),
        decreases n - i,
    {
        v.push(s.get_char(i));
        proof {
            assert(v@ =~= s@.take(i + 1));
        }
        i += 1;
    }
    proof {
        assert(s@.take(n as int) =~= s@);
    }
    v
}

fn is_sep_c(c: char) -> (r: bool)
    ensures
        r == is_sep(c),
{
    c == '/' || c == '\\'
}

fn is_digit_c(c: char) -> (r: bool)
    ensures
        r == is_digit(c),
{
    let u = c as u32;
    48 <= u && u <= 57
}

/// Scan forward from `from` (up to `to`) over decimal digits; afterwards `p`
/// is the end of the digit prefix of `v[from..to]`.
fn scan_digits(v: &Vec<char>, from: usize, to: usize) -> (p: usize)
    requires
        from <= to <= v@.len(),
    ensures
        from <= p <= to,
        forall|j: int| from <= j < p ==> is_digit(#[trigger] v@[j]),
        p == to || !is_digit(v@[p as int]),
        digit_prefix_len(v@.subrange(from as int, to as int)) == p - from,
{
    let mut p: usize = from;
    while p < to
        invariant_except_break
            from <= p <= to <= v@.len(),
            forall|j: int| from <= j < p ==> is_digit(#[trigger] v@[j]),
        ensures
            from <= p <= to <= v@.len(),
            forall|j: int| from <= j < p ==> is_digit(#[trigger] v@[j]),
            p == to || !is_digit(v@[p as int]),
        decreases to - p,
    {
        if !is_digit_c(v[p]) {
            break;
        }
        p += 1;
    }
    proof {
        let sub = v@.subrange(from as int, to as int);
        assert(forall|j: int| 0 <= j < p - from ==> is_digit(#[trigger] sub[j]));
        assert(p - from == sub.len() || !is_digit(sub[p - from]));
        lemma_digit_prefix(sub, p - from);
    }
    p
}

/// Are all characters of `v[from..to]` decimal digits?
fn check_all_digits(v: &Vec<char>, from: usize, to: usize) -> (r: bool)
    requires
        from <= to <= v@.len(),
    ensures
        r == all_digits(v@.subrange(from as int, to as int)),
{
    let ghost sub = v@.subrange(from as int, to as int);
    let mut i: usize = from;
    while i < to
        invariant
            from <= i <= to <= v@.len(),
            sub == v@.subrange(from as int, to as int),
            forall|j: int| from <= j < i ==> is_digit(#[trigger] v@[j]),
        decreases to - i,
    {
        if !is_digit_c(v[i]) {
            assert(sub[i - from] == v@[i as int]);
            assert(!all_digits(sub));
            return false;
        }
        i += 1;
    }
    assert forall|j: int| 0 <= j < sub.len() implies is_digit(#[trigger] sub[j]) by {
        assert(sub[j] == v@[from + j]);
    }
    true
}

/// The value of the digit string `v[start..end]`, or `None` if it does not
/// fit in `usize`.
fn digits_to_usize(v: &Vec<char>, start: usize, end: usize) -> (r: Option<usize>)
    requires
        start <= end <= v@.len(),
        all_digits(v@.subrange(start as int, end as int)),
    ensures
        ({
            let d = v@.subrange(start as int, end as int);
            match r {
                Some(n) => digits_val(d) <= usize::MAX as int && n == digits_val(d),
                None => digits_val(d) > usize::MAX as int,
            }
        }),
{
    let ghost d = v@.subrange(start as int, end as int);
    let mut val: usize = 0;
    let mut over: bool = false;
    let mut i: usize = start;
    assert(d.take(0) =~= Seq::<char>::empty());
    while i < end
        invariant
            start <= i <= end <= v@.len(),
            d == v@.subrange(start as int, end as int),
            all_digits(d),
            !over ==> digits_val(d.take(i - start)) <= usize::MAX as int && val == digits_val(
                d.take(i - start),
            ),
            over ==> digits_val(d.take(i - start)) > usize::MAX as int,
        decreases end - i,
    {
        let c = v[i];
        assert(d[i - start] == c);
        assert(is_digit(c));
        let dig: u32 = (c as u32) - 48;
        proof {
            assert(d.take(i - start + 1).drop_last() =~= d.take(i - start));
            assert(d.take(i - start + 1).last() == c);
            assert(digits_val(d.take(i - start + 1)) == digits_val(d.take(i - start)) * 10 + (
            c as int - '0' as int));
        }
        if !over {
            let prod: u128 = (val as u128) * 10 + (dig as u128);
            if prod > (usize::MAX as u128) {
                over = true;
            } else {
                val = prod as usize;
            }
        }
        i += 1;
    }
    proof {
        assert(d.take(end - start) =~= d);
    }
    if over {
        None
    } else {
        Some(val)
    }
}

/// The number named by the digit string `v[start..end]`, defaulting to 1
/// when it is empty or does not fit.
fn num_or_one_exec(v: &Vec<char>, start: usize, end: usize) -> (r: usize)
    requires
        start <= end <= v@.len(),
        all_digits(v@.subrange(start as int, end as int)),
    ensures
        r == num_or_one(v@.subrange(start as int, end as int)),
{
    if start == end {
        1
    } else {
        match digits_to_usize(v, start, end) {
            Some(n) => n,
            None => 1,
        }
    }
}

/// The number named by the digit string `v[start..end]`, defaulting to
/// `usize::MAX` (unbounded) when it is empty or does not fit.
fn num_or_unbounded_exec(v: &Vec<char>, start: usize, end: usize) -> (r: usize)
    requires
        start <= end <= v@.len(),
        all_digits(v@.subrange(start as int, end as int)),
    ensures
        r == num_or_unbounded(v@.subrange(start as int, end as int)),
{
    if start == end {
        usize::MAX
    } else {
        match digits_to_usize(v, start, end) {
            Some(n) => n,
            None => usize::MAX,
        }
    }
}

/// Classify the operator segment `v[start..end]` as an album or group
/// component, or `None` if it matches neither grammar.
fn classify_op(v: &Vec<char>, start: usize, end: usize) -> (r: Option<PathComponent>)
    requires
        start < end <= v@.len(),
        is_operator_seg(v@.subrange(start as int, end as int)),
    ensures
        ({
            let seg = v@.subrange(start as int, end as int);
            match r {
                Some(c) => classify_operator(seg) == Some(c@),
                None => classify_operator(seg) is None,
            }
        }),
{
    let ghost seg = v@.subrange(start as int, end as int);
    let ghost inner = seg.subrange(1, seg.len() - 1);
    proof {
        assert(seg.len() >= 2) by {
            if seg.len() == 1 {
                assert(seg[0] == '[' && seg[0] == ']');
            }
        }
        assert(inner =~= v@.subrange(start + 1, end - 1));
    }
    if end - start >= 3 && v[start + 1] == 'A' {
        let ghost body = inner.skip(1);
        proof {
            assert(inner[0] == v@[start + 1]);
            assert(body =~= v@.subrange(start + 2, end - 1));
        }
        let p = scan_digits(v, start + 2, end - 1);
        let ghost dp = digit_prefix_len(body);
        proof {
            assert(dp == p - (start + 2));
            assert(body.take(dp) =~= v@.subrange(start + 2, p as int));
            assert(body.skip(dp) =~= v@.subrange(p as int, end - 1));
        }
        if p == end - 1 {
            let min = num_or_one_exec(v, start + 2, p);
            let tipe = if min == 1 {
                AlbumType::Single
            } else {
                AlbumType::Depth
            };
            Some(PathComponent::Album(Album { min, max: min, tipe }))
        } else if v[p] == '.' {
            proof {
                assert(body.skip(dp)[0] == v@[p as int]);
                assert(body.skip(dp).skip(1) =~= v@.subrange(p + 1, end - 1));
            }
            if check_all_digits(v, p + 1, end - 1) {
                let min = num_or_one_exec(v, start + 2, p);
                let max = num_or_unbounded_exec(v, p + 1, end - 1);
                Some(PathComponent::Album(Album { min, max, tipe: AlbumType::Range }))
            } else {
                None
            }
        } else {
            proof {
                assert(body.skip(dp)[0] == v@[p as int]);
            }
            None
        }
    } else if end - start >= 3 && v[start + 1] == 'G' {
        let ghost body = inner.skip(1);
        proof {
            assert(inner[0] == v@[start + 1]);
            assert(body =~= v@.subrange(start + 2, end - 1));
        }
        if check_all_digits(v, start + 2, end - 1) {
            let depth = num_or_one_exec(v, start + 2, end - 1);
            Some(PathComponent::Group(Group { depth }))
        } else {
            None
        }
    } else {
        proof {
            if inner.len() >= 1 {
                assert(inner[0] == v@[start + 1]);
            }
        }
        None
    }
}

/// Compile one pattern string into its component sequence, or report the
/// first diagnostic: the earliest bracketed segment matching neither operator
/// grammar wins, with its character offset and length; otherwise the pattern
/// must hold exactly one album operator.
pub fn parse_path(s: &str) -> (r: Result<DirectoryPath, LayoutError>)
    ensures
        match r {
            Ok(path) => spec_parse_path(s@) == Ok::<Seq<PathComponentView>, LayoutErrorView>(
                path.deep_view(),
            ),
            Err(e) => spec_parse_path(s@) == Err::<Seq<PathComponentView>, LayoutErrorView>(e@),
        },
{
    let v = chars_of(s);
    let n = v.len();
    let ghost segs = split_path(s@);
    let mut comps: Vec<PathComponent> = Vec::new();
    let mut cache: Vec<String> = Vec::new();
    let mut pending: bool = false;
    let mut albums: usize = 0;
    let mut start: usize = 0;
    let ghost mut done: int = 0;
    let ghost mut cur: ParseState = ParseState::init();

    proof {
        lemma_split_path_len(s@);
        assert(s@.skip(0) =~= s@);
        assert(segs.skip(0) =~= segs);
        assert(comps.deep_view() =~= cur.comps);
        assert(cache.deep_view() =~= cur.cache);
    }

    loop
        invariant_except_break
            0 <= done < segs.len(),
            split_path(s@.skip(start as int)) == segs.skip(done),
            spec_parse_segs(s@, segs, 0, ParseState::init()) == spec_parse_segs(
                s@,
                segs.skip(done),
                start as int,
                cur,
            ),
            4 * (albums as int) <= start as int + 1,
        invariant
            v@ == s@,
            n == v@.len(),
            n == v.len(),
            segs == split_path(s@),
            start <= n,
            comps.deep_view() == cur.comps,
            cache.deep_view() == cur.cache,
            pending == cur.pending,
            albums as int == cur.albums,
            albums <= comps@.len(),
        ensures
            spec_parse_segs(s@, segs, 0, ParseState::init()) == Ok::<ParseState, LayoutErrorView>(
                cur,
            ),
            comps.deep_view() == cur.comps,
            cache.deep_view() == cur.cache,
            pending == cur.pending,
            albums as int == cur.albums,
            v@ == s@,
            segs == split_path(s@),
        decreases segs.len() - done,
    {
        // Find the end of the current segment.
        let mut end: usize = start;
        while end < n
            invariant_except_break
                start <= end <= n,
                n == v@.len(),
                v@ == s@,
                forall|j: int| start <= j < end ==> !is_sep(#[trigger] v@[j]),
            ensures
                start <= end <= n,
                n == v@.len(),
                v@ == s@,
                forall|j: int| start <= j < end ==> !is_sep(#[trigger] v@[j]),
                end == n || is_sep(v@[end as int]),
            decreases n - end,
        {
            if is_sep_c(v[end]) {
                break;
            }
            end += 1;
        }

        let ghost rem = s@.skip(start as int);
        let ghost seg = s@.subrange(start as int, end as int);
        proof {
            assert(forall|j: int| 0 <= j < end - start ==> rem[j] == s@[start + j]);
            assert(end - start == rem.len() || is_sep(rem[end - start]));
            lemma_split_path_first(rem, end - start);
            if end == n {
                assert(rem =~= seg);
                assert(segs.skip(done) == seq![seg]);
            } else {
                assert(rem.take(end - start) =~= seg);
                assert(rem.skip(end - start + 1) =~= s@.skip(end + 1));
                assert(segs.skip(done) == seq![seg] + split_path(s@.skip(end + 1)));
            }
            assert(segs.skip(done).len() >= 1);
            assert(segs.skip(done)[0] == seg);
            assert(segs.skip(done).skip(1) =~= segs.skip(done + 1));
        }
        let ghost pre_st = cur;
        let ghost step = seg_step(s@, pre_st, seg, start as int);

        // Is this segment an operator, i.e. fully wrapped in brackets?
        let is_op = end - start >= 1 && v[start] == '[' && v[end - 1] == ']';
        proof {
            assert(seg.len() == end - start);
            if end > start {
                assert(seg[0] == v@[start as int]);
                assert(seg[seg.len() - 1] == v@[end - 1]);
            }
            assert(is_op == is_operator_seg(seg));
        }

        if is_op {
            // An operator first flushes any pending literal buffer.
            let ghost flushed_st = flush_cache(pre_st);
            if pending {
                let flushed = cache;
                cache = Vec::new();
                comps.push(PathComponent::Dir(flushed));
                pending = false;
                proof {
                    assert(comps.deep_view() =~= pre_st.comps.push(
                        PathComponentView::Dir(pre_st.cache),
                    ));
                    assert(cache.deep_view() =~= Seq::<Seq<char>>::empty());
                }
            }
            proof {
                assert(comps.deep_view() == flushed_st.comps);
                assert(cache.deep_view() == flushed_st.cache);
                assert(pending == flushed_st.pending);
            }
            match classify_op(&v, start, end) {
                Some(c) => {
                    let ghost pre_comps = comps.deep_view();
                    let is_album = matches!(c, PathComponent::Album(_));
                    proof {
                        assert(classify_operator(seg) == Some(c@));
                        assert(is_album == (c@ is Album));
                    }
                    comps.push(c);
                    proof {
                        assert(comps.deep_view() =~= pre_comps.push(c@));
                    }
                    if is_album {
                        albums += 1;
                    }
                    proof {
                        cur = match step {
                            Ok(st) => st,
                            Err(_) => pre_st,
                        };
                        assert(step == Ok::<ParseState, LayoutErrorView>(cur));
                        assert(comps.deep_view() == cur.comps);
                        assert(albums as int == cur.albums);
                    }
                },
                None => {
                    let err = LayoutError::new(
                        Some(s),
                        start,
                        Some(end - start),
                        "Invalid operator.\nSee README.md for correct operator usage.",
                    );
                    proof {
                        assert(step == Err::<ParseState, LayoutErrorView>(
                            invalid_op_error(s@, start as int, seg.len() as int),
                        ));
                        assert(spec_parse_segs(s@, segs.skip(done), start as int, pre_st)
                            == Err::<ParseState, LayoutErrorView>(err@));
                        assert(spec_parse_path(s@) == Err::<
                            Seq<PathComponentView>,
                            LayoutErrorView,
                        >(err@));
                    }
                    return Err(err);
                },
            }
        } else {
            // A literal segment: buffer its non-empty text.
            if end > start {
                let segstr: String = s.substring_char(start, end).to_owned();
                let ghost pre_cache = cache.deep_view();
                cache.push(segstr);
                proof {
                    assert(cache.deep_view() =~= pre_cache.push(seg));
                }
            }
            pending = true;
            proof {
                cur = match step {
                    Ok(st) => st,
                    Err(_) => pre_st,
                };
                assert(step == Ok::<ParseState, LayoutErrorView>(cur));
                assert(cache.deep_view() == cur.cache);
            }
        }

        proof {
            assert(spec_parse_segs(s@, segs.skip(done), start as int, pre_st) == spec_parse_segs(
                s@,
                segs.skip(done + 1),
                start as int + seg.len() + 1,
                cur,
            ));
        }

        if end == n {
            proof {
                assert(segs.skip(done + 1) =~= Seq::<Seq<char>>::empty());
                assert(spec_parse_segs(
                    s@,
                    segs.skip(done + 1),
                    start as int + seg.len() + 1,
                    cur,
                ) == Ok::<ParseState, LayoutErrorView>(cur));
                done = done + 1;
            }
            break;
        }
        proof {
            lemma_split_path_len(s@.skip(end + 1));
            assert((seq![seg] + split_path(s@.skip(end + 1))).skip(1) =~= split_path(
                s@.skip(end + 1),
            ));
            assert(segs.skip(done + 1) == split_path(s@.skip(end + 1)));
            done = done + 1;
        }
        start = end + 1;
    }

    // A trailing literal is flushed as the pattern's common suffix.
    let ghost folded = cur;
    let ghost st1 = flush_cache(folded);
    if pending {
        let flushed = cache;
        comps.push(PathComponent::Dir(flushed));
        proof {
            assert(comps.deep_view() =~= folded.comps.push(PathComponentView::Dir(folded.cache)));
        }
    }
    proof {
        assert(comps.deep_view() == st1.comps);
        assert(albums as int == st1.albums);
    }

    if albums > 1 {
        let err = LayoutError::new(
            Some(s),
            0,
            None,
            "Multiple Album operators.\nOnly one Album operator is allowed.",
        );
        proof {
            assert(err@ == multiple_album_error(s@));
        }
        return Err(err);
    }
    if albums < 1 {
        let err = LayoutError::new(Some(s), 0, None, "Missing Album operator.");
        proof {
            assert(err@ == missing_album_error(s@));
        }
        return Err(err);
    }
    Ok(comps)
}

/// The leading literal anchor of a compiled pattern: the segments of every
/// literal component before the first operator. This is the fixed directory
/// a filesystem watcher observes for the pattern.
pub open spec fn spec_watch_root(comps: Seq<PathComponentView>) -> Seq<Seq<char>>
    decreases comps.len(),
{
    if comps.len() == 0 {
        Seq::<Seq<char>>::empty()
    } else {
        match comps[0] {
            PathComponentView::Dir(segs) => segs + spec_watch_root(comps.skip(1)),
            _ => Seq::<Seq<char>>::empty(),
        }
    }
}

/// The fixed directory a filesystem watcher observes for one pattern: its
/// leading literal segments, up to the first operator.
pub fn watch_root(path: &DirectoryPath) -> (r: Vec<String>)
    ensures
        r.deep_view() == spec_watch_root(path.deep_view()),
{
    let ghost cvs = path.deep_view();
    let mut r: Vec<String> = Vec::new();
    let mut idx: usize = 0;
    proof {
        assert(cvs.skip(0) =~= cvs);
        assert(r.deep_view() =~= Seq::<Seq<char>>::empty());
    }
    while idx < path.len()
        invariant_except_break
            idx <= path@.len(),
            cvs == path.deep_view(),
            cvs.len() == path@.len(),
            spec_watch_root(cvs) == r.deep_view() + spec_watch_root(cvs.skip(idx as int)),
        ensures
            r.deep_view() == spec_watch_root(cvs),
        decreases path@.len() - idx,
    {
        proof {
            assert(cvs.skip(idx as int)[0] == cvs[idx as int]);
            assert(cvs.skip(idx as int).skip(1) =~= cvs.skip(idx + 1));
            assert(cvs[idx as int] == path@[idx as int]@);
        }
        match &path[idx] {
            PathComponent::Dir(segs) => {
                let ghost pre = r.deep_view();
                let mut l: usize = 0;
                proof {
                    assert(r.deep_view() =~= pre + segs.deep_view().take(0));
                }
                while l < segs.len()
                    invariant
                        l <= segs@.len(),
                        r.deep_view() == pre + segs.deep_view().take(l as int),
                    decreases segs@.len() - l,
                {
                    let ghost pre2 = r.deep_view();
                    r.push(segs[l].clone());
                    proof {
                        assert(r.deep_view() =~= pre2.push(segs.deep_view()[l as int]));
                        assert(r.deep_view() =~= pre + segs.deep_view().take(l + 1));
                    }
                    l += 1;
                }
                proof {
                    assert(segs.deep_view().take(segs.deep_view().len() as int) =~= segs.deep_view());
                    assert(r.deep_view() =~= pre + segs.deep_view());
                }
            },
            _ => {
                proof {
                    assert(spec_watch_root(cvs.skip(idx as int)) =~= Seq::<Seq<char>>::empty());
                    assert(r.deep_view() =~= spec_watch_root(cvs));
                }
                break;
            },
        }
        idx += 1;
    }
    r
}

/// Compile a list of pattern strings; the first pattern that fails to
/// compile halts the loading with its diagnostic.
pub fn parse_paths(patterns: &Vec<String>) -> (r: Result<Vec<DirectoryPath>, LayoutError>)
    ensures
        match r {
            Ok(paths) => paths@.len() == patterns@.len() && forall|i: int|
                0 <= i < paths@.len() ==> spec_parse_path(patterns.deep_view()[i]) == Ok::<
                    Seq<PathComponentView>,
                    LayoutErrorView,
                >((#[trigger] paths@[i]).deep_view()),
            Err(e) => exists|i: int|
                0 <= i < patterns@.len() && spec_parse_path(
                    #[trigger] patterns.deep_view()[i],
                ) == Err::<Seq<PathComponentView>, LayoutErrorView>(e@) && forall|j: int|
                    0 <= j < i ==> spec_parse_path(#[trigger] patterns.deep_view()[j]) is Ok,
        },
{
    let mut paths: Vec<DirectoryPath> = Vec::new();
    let mut i: usize = 0;
    while i < patterns.len()
        invariant
            i <= patterns@.len(),
            paths@.len() == i,
            forall|j: int|
                0 <= j < i ==> spec_parse_path(patterns.deep_view()[j]) == Ok::<
                    Seq<PathComponentView>,
                    LayoutErrorView,
                >((#[trigger] paths@[j]).deep_view()),
        decreases patterns@.len() - i,
    {
        match parse_path(patterns[i].as_str()) {
            Ok(p) => {
                paths.push(p);
            },
            Err(e) => {
                proof {
                    assert(patterns.deep_view()[i as int] == patterns@[i as int]@);
                    assert forall|j: int| 0 <= j < i implies spec_parse_path(
                        #[trigger] patterns.deep_view()[j],
                    ) is Ok by {
                        assert(spec_parse_path(patterns.deep_view()[j]) == Ok::<
                            Seq<PathComponentView>,
                            LayoutErrorView,
                        >(paths@[j].deep_view()));
                    }
                }
                return Err(e);
            },
        }
        i += 1;
    }
    Ok(paths)
}

} // verus!
