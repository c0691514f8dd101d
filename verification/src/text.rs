//! Character and string toolkit shared by every module of the library.
//!
//! Text is modelled as `Seq<char>` (the view of `str` and `String`).  The
//! executable helpers work on `&[char]`/`Vec<char>` and convert to and from
//! `String` only at the edges of the public API.
use vstd::prelude::*;

verus! {

// ---------------------------------------------------------------------------
// ASCII classes
// ---------------------------------------------------------------------------

pub open spec fn is_ascii_upper(c: char) -> bool {
    'A' <= c && c <= 'Z'
}

pub open spec fn is_ascii_lower(c: char) -> bool {
    'a' <= c && c <= 'z'
}

pub open spec fn is_ascii_digit(c: char) -> bool {
    '0' <= c && c <= '9'
}

pub open spec fn is_ascii_alpha(c: char) -> bool {
    is_ascii_upper(c) || is_ascii_lower(c)
}

pub open spec fn is_ascii_alnum(c: char) -> bool {
    is_ascii_alpha(c) || is_ascii_digit(c)
}

pub open spec fn is_ascii_char(c: char) -> bool {
    (c as u32) < 128
}

pub open spec fn all_ascii(s: Seq<char>) -> bool {
    forall|i: int| 0 <= i < s.len() ==> is_ascii_char(#[trigger] s[i])
}

/// ASCII lowercase mapping of a single character; other characters are unchanged.
pub open spec fn ascii_lower(c: char) -> char {
    if is_ascii_upper(c) {
        ((c as u32) + 32) as char
    } else {
        c
    }
}

/// ASCII uppercase mapping of a single character; other characters are unchanged.
pub open spec fn ascii_upper(c: char) -> char {
    if is_ascii_lower(c) {
        ((c as u32) - 32) as char
    } else {
        c
    }
}

pub open spec fn ascii_lower_seq(s: Seq<char>) -> Seq<char> {
    s.map_values(|c: char| ascii_lower(c))
}

pub open spec fn ascii_upper_seq(s: Seq<char>) -> Seq<char> {
    s.map_values(|c: char| ascii_upper(c))
}

pub fn ascii_digit(c: char) -> (r: bool)
    ensures
        r == is_ascii_digit(c),
{
    '0' <= c && c <= '9'
}

pub fn ascii_alpha(c: char) -> (r: bool)
    ensures
        r == is_ascii_alpha(c),
{
    ('A' <= c && c <= 'Z') || ('a' <= c && c <= 'z')
}

pub fn ascii_alnum(c: char) -> (r: bool)
    ensures
        r == is_ascii_alnum(c),
{
    ascii_alpha(c) || ascii_digit(c)
}

pub fn to_ascii_lower(c: char) -> (r: char)
    ensures
        r == ascii_lower(c),
{
    if 'A' <= c && c <= 'Z' {
        ((c as u8) + 32) as char
    } else {
        c
    }
}


/// `str::to_ascii_lowercase` on a character sequence.
pub fn ascii_lowercase(s: &[char]) -> (r: Vec<char>)
    ensures
        r@ == ascii_lower_seq(s@),
{
    let mut r: Vec<char> = Vec::new();
    let mut i: usize = 0;
    while i < s.len()
        invariant
            i <= s.len(),
            r@ == ascii_lower_seq(s@.take(i as int)),
        decreases s.len() - i,
    {
        r.push(to_ascii_lower(s[i]));
        i = i + 1;
        assert(ascii_lower_seq(s@.take(i as int)) =~= ascii_lower_seq(s@.take(i - 1)).push(
            ascii_lower(s@[i - 1]),
        ));
    }
    assert(s@.take(s.len() as int) =~= s@);
    r
}

/// Case-insensitive ASCII equality (`eq_ignore_ascii_case`).
pub open spec fn eq_ignore_ascii_case(a: Seq<char>, b: Seq<char>) -> bool {
    ascii_lower_seq(a) == ascii_lower_seq(b)
}

pub fn equals_ignore_ascii_case(a: &[char], b: &[char]) -> (r: bool)
    ensures
        r == eq_ignore_ascii_case(a@, b@),
{
    let la = ascii_lowercase(a);
    let lb = ascii_lowercase(b);
    let r = same_chars(&la, &lb);
    r
}

pub fn same_chars(a: &[char], b: &[char]) -> (r: bool)
    ensures
        r == (a@ == b@),
{
    if a.len() != b.len() {
        return false;
    }
    let mut i: usize = 0;
    while i < a.len()
        invariant
            a.len() == b.len(),
            i <= a.len(),
            forall|k: int| 0 <= k < i ==> a@[k] == b@[k],
        decreases a.len() - i,
    {
        if a[i] != b[i] {
            return false;
        }
        i = i + 1;
    }
    assert(a@ =~= b@);
    true
}

// ---------------------------------------------------------------------------
// Unicode whitespace (`char::is_whitespace`: the White_Space property)
// ---------------------------------------------------------------------------

pub open spec fn is_ws(c: char) -> bool {
    let u = c as u32;
    (0x09 <= u && u <= 0x0d) || u == 0x20 || u == 0x85 || u == 0xa0 || u == 0x1680 || (0x2000
        <= u && u <= 0x200a) || u == 0x2028 || u == 0x2029 || u == 0x202f || u == 0x205f || u
        == 0x3000
}

pub fn is_whitespace(c: char) -> (r: bool)
    ensures
        r == is_ws(c),
{
    let u = c as u32;
    (0x09 <= u && u <= 0x0d) || u == 0x20 || u == 0x85 || u == 0xa0 || u == 0x1680 || (0x2000
        <= u && u <= 0x200a) || u == 0x2028 || u == 0x2029 || u == 0x202f || u == 0x205f || u
        == 0x3000
}

// ---------------------------------------------------------------------------
// Character sets used for trimming and splitting
// ---------------------------------------------------------------------------

/// A set of characters: the unit of `trim_matches`, `split` and friends.
#[derive(Clone, Copy, PartialEq, Eq, Debug, Structural)]
pub enum CharSet {
    /// Unicode whitespace.
    Whitespace,
    /// One given character.
    One(char),
    /// The word separators `' '`, `'-'` and `'_'`.
    WordSeparators,
    /// The Windows path separators `'\\'` and `'/'`.
    PathSeparators,
}

pub open spec fn in_set(k: CharSet, c: char) -> bool {
    match k {
        CharSet::Whitespace => is_ws(c),
        CharSet::One(x) => c == x,
        CharSet::WordSeparators => c == ' ' || c == '-' || c == '_',
        CharSet::PathSeparators => c == '\\' || c == '/',
    }
}

pub fn member(k: CharSet, c: char) -> (r: bool)
    ensures
        r == in_set(k, c),
{
    match k {
        CharSet::Whitespace => is_whitespace(c),
        CharSet::One(x) => c == x,
        CharSet::WordSeparators => c == ' ' || c == '-' || c == '_',
        CharSet::PathSeparators => c == '\\' || c == '/',
    }
}

// ---------------------------------------------------------------------------
// Trimming
// ---------------------------------------------------------------------------

/// Drop every leading character of the set.
pub open spec fn trim_start(s: Seq<char>, k: CharSet) -> Seq<char>
    decreases s.len(),
{
    if s.len() > 0 && in_set(k, s[0]) {
        trim_start(s.drop_first(), k)
    } else {
        s
    }
}

/// Drop every trailing character of the set.
pub open spec fn trim_end(s: Seq<char>, k: CharSet) -> Seq<char>
    decreases s.len(),
{
    if s.len() > 0 && in_set(k, s.last()) {
        trim_end(s.drop_last(), k)
    } else {
        s
    }
}

/// Drop leading and trailing characters of the set (`trim`, `trim_matches`).
pub open spec fn trim(s: Seq<char>, k: CharSet) -> Seq<char> {
    trim_end(trim_start(s, k), k)
}

pub proof fn lemma_trim_start_skip(s: Seq<char>, k: CharSet, i: int)
    requires
        0 <= i <= s.len(),
        forall|j: int| 0 <= j < i ==> in_set(k, #[trigger] s[j]),
        i == s.len() || !in_set(k, s[i]),
    ensures
        trim_start(s, k) == s.skip(i),
    decreases i,
{
    if i == 0 {
        assert(s.skip(0) =~= s);
    } else {
        assert(in_set(k, s[0]));
        let t = s.drop_first();
        assert forall|j: int| 0 <= j < i - 1 implies in_set(k, #[trigger] t[j]) by {
            assert(t[j] == s[j + 1]);
        }
        lemma_trim_start_skip(t, k, i - 1);
        assert(t.skip(i - 1) =~= s.skip(i));
    }
}

pub proof fn lemma_trim_end_take(s: Seq<char>, k: CharSet, j: int)
    requires
        0 <= j <= s.len(),
        forall|m: int| j <= m < s.len() ==> in_set(k, #[trigger] s[m]),
        j == 0 || !in_set(k, s[j - 1]),
    ensures
        trim_end(s, k) == s.take(j),
    decreases s.len() - j,
{
    if j == s.len() {
        assert(s.take(j) =~= s);
        if s.len() > 0 {
            assert(!in_set(k, s.last()));
        }
    } else {
        assert(in_set(k, s.last()));
        let t = s.drop_last();
        lemma_trim_end_take(t, k, j);
        assert(t.take(j) =~= s.take(j));
    }
}

pub proof fn lemma_trim_start_shape(s: Seq<char>, k: CharSet)
    ensures
        exists|a: int| 0 <= a <= s.len() && #[trigger] s.skip(a) == trim_start(s, k),
        trim_start(s, k).len() > 0 ==> !in_set(k, trim_start(s, k)[0]),
    decreases s.len(),
{
    if s.len() > 0 && in_set(k, s[0]) {
        lemma_trim_start_shape(s.drop_first(), k);
        let a = choose|a: int|
            0 <= a <= s.drop_first().len() && #[trigger] s.drop_first().skip(a) == trim_start(
                s.drop_first(),
                k,
            );
        assert(s.skip(a + 1) =~= s.drop_first().skip(a));
    } else {
        assert(s.skip(0) =~= s);
    }
}

pub proof fn lemma_trim_end_shape(s: Seq<char>, k: CharSet)
    ensures
        exists|b: int| 0 <= b <= s.len() && #[trigger] s.take(b) == trim_end(s, k),
        trim_end(s, k).len() > 0 ==> !in_set(k, trim_end(s, k).last()),
    decreases s.len(),
{
    if s.len() > 0 && in_set(k, s.last()) {
        lemma_trim_end_shape(s.drop_last(), k);
        let b = choose|b: int|
            0 <= b <= s.drop_last().len() && #[trigger] s.drop_last().take(b) == trim_end(
                s.drop_last(),
                k,
            );
        assert(s.take(b) =~= s.drop_last().take(b));
    } else {
        assert(s.take(s.len() as int) =~= s);
    }
}

/// The bounds `(start, end)` that `trim` keeps.
pub fn trim_bounds(s: &[char], k: CharSet) -> (r: (usize, usize))
    ensures
        r.0 <= r.1 <= s.len(),
        trim(s@, k) == s@.subrange(r.0 as int, r.1 as int),
        trim_start(s@, k) == s@.skip(r.0 as int),
{
    let mut i: usize = 0;
    while i < s.len() && member(k, s[i])
        invariant
            i <= s.len(),
            forall|j: int| 0 <= j < i ==> in_set(k, #[trigger] s@[j]),
        decreases s.len() - i,
    {
        i = i + 1;
    }
    proof {
        lemma_trim_start_skip(s@, k, i as int);
    }
    let mut e: usize = s.len();
    while e > i && member(k, s[e - 1])
        invariant
            i <= e <= s.len(),
            forall|m: int| e <= m < s.len() ==> in_set(k, #[trigger] s@[m]),
        decreases e,
    {
        e = e - 1;
    }
    proof {
        let t = s@.skip(i as int);
        let je = e - i;
        assert forall|m: int| je <= m < t.len() implies in_set(k, #[trigger] t[m]) by {
            assert(t[m] == s@[m + i]);
        }
        if je > 0 {
            assert(t[je - 1] == s@[e - 1]);
        }
        lemma_trim_end_take(t, k, je);
        assert(t.take(je) =~= s@.subrange(i as int, e as int));
    }
    (i, e)
}

pub fn copy_range(s: &[char], from: usize, to: usize) -> (r: Vec<char>)
    requires
        from <= to <= s.len(),
    ensures
        r@ == s@.subrange(from as int, to as int),
{
    let mut r: Vec<char> = Vec::new();
    let mut i: usize = from;
    while i < to
        invariant
            from <= i <= to <= s.len(),
            r@ == s@.subrange(from as int, i as int),
        decreases to - i,
    {
        r.push(s[i]);
        i = i + 1;
        assert(r@ =~= s@.subrange(from as int, i as int));
    }
    r
}

pub fn trim_with(s: &[char], k: CharSet) -> (r: Vec<char>)
    ensures
        r@ == trim(s@, k),
{
    let (a, b) = trim_bounds(s, k);
    copy_range(s, a, b)
}

pub fn trim_start_with(s: &[char], k: CharSet) -> (r: Vec<char>)
    ensures
        r@ == trim_start(s@, k),
{
    let (a, _b) = trim_bounds(s, k);
    let r = copy_range(s, a, s.len());
    assert(s@.subrange(a as int, s.len() as int) =~= s@.skip(a as int));
    r
}

/// `str::trim`: strip leading and trailing Unicode whitespace.
pub fn trim_ws(s: &[char]) -> (r: Vec<char>)
    ensures
        r@ == trim(s@, CharSet::Whitespace),
{
    trim_with(s, CharSet::Whitespace)
}


// ---------------------------------------------------------------------------
// Prefixes, suffixes and occurrences
// ---------------------------------------------------------------------------

pub open spec fn starts_with(s: Seq<char>, p: Seq<char>) -> bool {
    p.len() <= s.len() && s.take(p.len() as int) == p
}

pub open spec fn ends_with(s: Seq<char>, p: Seq<char>) -> bool {
    p.len() <= s.len() && s.skip(s.len() - p.len()) == p
}

/// `p` occurs in `s` starting at index `i`.
pub open spec fn occurs_at(s: Seq<char>, p: Seq<char>, i: int) -> bool {
    0 <= i && i + p.len() <= s.len() && s.subrange(i, i + p.len()) == p
}

pub open spec fn contains_seq(s: Seq<char>, p: Seq<char>) -> bool {
    exists|i: int| occurs_at(s, p, i)
}

/// `p` occurs at `i` and nowhere earlier: the index `str::find` reports.
pub open spec fn first_occurrence(s: Seq<char>, p: Seq<char>, i: int) -> bool {
    occurs_at(s, p, i) && forall|j: int| 0 <= j < i ==> !occurs_at(s, p, j)
}

pub fn matches_at(s: &[char], p: &[char], i: usize) -> (r: bool)
    ensures
        r == occurs_at(s@, p@, i as int),
{
    if i > s.len() || p.len() > s.len() - i {
        return false;
    }
    let mut k: usize = 0;
    while k < p.len()
        invariant
            i + p.len() <= s.len(),
            k <= p.len(),
            forall|m: int| 0 <= m < k ==> s@[i + m] == p@[m],
        decreases p.len() - k,
    {
        if s[i + k] != p[k] {
            assert(s@.subrange(i as int, i + p.len())[k as int] != p@[k as int]);
            return false;
        }
        k = k + 1;
    }
    assert(s@.subrange(i as int, i + p.len()) =~= p@);
    true
}

pub fn has_prefix(s: &[char], p: &[char]) -> (r: bool)
    ensures
        r == starts_with(s@, p@),
{
    let r = matches_at(s, p, 0);
    proof {
        if p@.len() <= s@.len() {
            assert(s@.subrange(0, p@.len() as int) =~= s@.take(p@.len() as int));
        }
    }
    r
}

pub fn has_suffix(s: &[char], p: &[char]) -> (r: bool)
    ensures
        r == ends_with(s@, p@),
{
    if p.len() > s.len() {
        return false;
    }
    let r = matches_at(s, p, s.len() - p.len());
    proof {
        assert(s@.subrange(s@.len() - p@.len(), s@.len() as int) =~= s@.skip(
            s@.len() - p@.len(),
        ));
    }
    r
}

/// `str::find`: the first index at which `p` occurs.
pub fn find_seq(s: &[char], p: &[char]) -> (r: Option<usize>)
    ensures
        r matches Some(i) ==> first_occurrence(s@, p@, i as int),
        r is None ==> !contains_seq(s@, p@),
{
    if p.len() > s.len() {
        assert forall|j: int| !occurs_at(s@, p@, j) by {}
        return None;
    }
    let last = s.len() - p.len();
    let mut i: usize = 0;
    while i < last
        invariant
            i <= last,
            last + p.len() == s.len(),
            forall|j: int| 0 <= j < i ==> !occurs_at(s@, p@, j),
        decreases last - i,
    {
        if matches_at(s, p, i) {
            return Some(i);
        }
        i = i + 1;
    }
    if matches_at(s, p, last) {
        return Some(last);
    }
    assert forall|j: int| !occurs_at(s@, p@, j) by {
        if 0 <= j && j + p@.len() <= s@.len() {
            assert(j <= last);
        }
    }
    None
}

/// The index `str::find` reports for `p` in `s`: its first occurrence.
pub open spec fn find_in(s: Seq<char>, p: Seq<char>) -> Option<int> {
    if contains_seq(s, p) {
        Some(choose|i: int| first_occurrence(s, p, i))
    } else {
        None
    }
}

proof fn lemma_first_occurrence_exists(s: Seq<char>, p: Seq<char>, k: int)
    requires
        occurs_at(s, p, k),
    ensures
        exists|i: int| first_occurrence(s, p, i),
    decreases k,
{
    if forall|j: int| 0 <= j < k ==> !occurs_at(s, p, j) {
        assert(first_occurrence(s, p, k));
    } else {
        let j = choose|j: int| 0 <= j < k && occurs_at(s, p, j);
        lemma_first_occurrence_exists(s, p, j);
    }
}

/// What `find_in` reports is the first occurrence.
pub proof fn lemma_find_in(s: Seq<char>, p: Seq<char>)
    ensures
        match find_in(s, p) {
            Some(i) => first_occurrence(s, p, i),
            None => !contains_seq(s, p),
        },
{
    if contains_seq(s, p) {
        let k = choose|k: int| occurs_at(s, p, k);
        lemma_first_occurrence_exists(s, p, k);
    }
}

/// `str::find` on character slices, stated through `find_in`.
pub fn find(s: &[char], p: &[char]) -> (r: Option<usize>)
    ensures
        match r {
            Some(i) => find_in(s@, p@) == Some(i as int) && first_occurrence(s@, p@, i as int),
            None => find_in(s@, p@) is None,
        },
{
    let r = find_seq(s, p);
    proof {
        lemma_find_in(s@, p@);
        if let Some(i) = r {
            let j = choose|j: int| first_occurrence(s@, p@, j);
            if j < i {
                assert(!occurs_at(s@, p@, j));
            } else if i < j {
                assert(!occurs_at(s@, p@, i as int));
            }
        }
    }
    r
}

pub fn contains_chars(s: &[char], p: &[char]) -> (r: bool)
    ensures
        r == contains_seq(s@, p@),
{
    match find_seq(s, p) {
        Some(_) => true,
        None => false,
    }
}


// ---------------------------------------------------------------------------
// Splitting and joining
// ---------------------------------------------------------------------------

/// `split` on every character of the set; always at least one piece.
pub open spec fn split_by(s: Seq<char>, k: CharSet) -> Seq<Seq<char>>
    decreases s.len(),
{
    if s.len() == 0 {
        seq![Seq::<char>::empty()]
    } else {
        let prev = split_by(s.drop_last(), k);
        if in_set(k, s.last()) {
            prev.push(Seq::<char>::empty())
        } else {
            prev.update(prev.len() - 1, prev.last().push(s.last()))
        }
    }
}

pub proof fn lemma_split_by_nonempty(s: Seq<char>, k: CharSet)
    ensures
        split_by(s, k).len() >= 1,
    decreases s.len(),
{
    if s.len() > 0 {
        lemma_split_by_nonempty(s.drop_last(), k);
    }
}

/// The pieces that are not empty, in order.
pub open spec fn nonempty(parts: Seq<Seq<char>>) -> Seq<Seq<char>>
    decreases parts.len(),
{
    if parts.len() == 0 {
        parts
    } else if parts.last().len() == 0 {
        nonempty(parts.drop_last())
    } else {
        nonempty(parts.drop_last()).push(parts.last())
    }
}

/// `parts.join(sep)`.
pub open spec fn join(parts: Seq<Seq<char>>, sep: Seq<char>) -> Seq<char>
    decreases parts.len(),
{
    if parts.len() == 0 {
        Seq::<char>::empty()
    } else if parts.len() == 1 {
        parts[0]
    } else {
        join(parts.drop_last(), sep) + sep + parts.last()
    }
}

/// `split_whitespace`: the maximal runs of non-whitespace characters.
pub open spec fn words(s: Seq<char>) -> Seq<Seq<char>> {
    nonempty(split_by(s, CharSet::Whitespace))
}

pub open spec fn views(v: Seq<Vec<char>>) -> Seq<Seq<char>> {
    v.map_values(|x: Vec<char>| x@)
}

/// Whether `x` is one of the texts in `used`.
pub fn contains_name(used: &Vec<Vec<char>>, x: &[char]) -> (r: bool)
    ensures
        r == views(used@).contains(x@),
{
    let mut i: usize = 0;
    while i < used.len()
        invariant
            i <= used.len(),
            forall|k: int| 0 <= k < i ==> views(used@)[k] != x@,
        decreases used.len() - i,
    {
        if same_chars(used[i].as_slice(), x) {
            assert(views(used@)[i as int] == x@);
            return true;
        }
        i = i + 1;
    }
    false
}

pub proof fn lemma_views_push(v: Seq<Vec<char>>, x: Vec<char>)
    ensures
        views(v.push(x)) == views(v).push(x@),
{
    assert(views(v.push(x)) =~= views(v).push(x@));
}

/// Every character of every piece satisfies `q` and is outside the set,
/// when every character of the text is in the set or satisfies `q`.
pub proof fn lemma_split_by_chars(s: Seq<char>, k: CharSet, q: spec_fn(char) -> bool)
    requires
        forall|m: int| 0 <= m < s.len() ==> q(#[trigger] s[m]) || in_set(k, s[m]),
    ensures
        forall|i: int, j: int|
            0 <= i < split_by(s, k).len() && 0 <= j < split_by(s, k)[i].len() ==> q(
                #[trigger] split_by(s, k)[i][j],
            ) && !in_set(k, split_by(s, k)[i][j]),
    decreases s.len(),
{
    if s.len() > 0 {
        let t = s.drop_last();
        assert forall|m: int| 0 <= m < t.len() implies q(#[trigger] t[m]) || in_set(k, t[m]) by {
            assert(t[m] == s[m]);
        }
        lemma_split_by_chars(t, k, q);
        lemma_split_by_nonempty(t, k);
        assert(q(s[s.len() - 1]) || in_set(k, s[s.len() - 1]));
    }
}

/// The pieces kept by `nonempty` are nonempty and are pieces of the input.
pub proof fn lemma_nonempty_pieces(parts: Seq<Seq<char>>)
    ensures
        forall|i: int| 0 <= i < nonempty(parts).len() ==> (#[trigger] nonempty(parts)[i]).len() > 0,
        forall|i: int|
            0 <= i < nonempty(parts).len() ==> exists|j: int|
                0 <= j < parts.len() && #[trigger] nonempty(parts)[i] == parts[j],
    decreases parts.len(),
{
    if parts.len() > 0 {
        lemma_nonempty_pieces(parts.drop_last());
        let p = nonempty(parts.drop_last());
        assert forall|i: int| 0 <= i < nonempty(parts).len() implies exists|j: int|
            0 <= j < parts.len() && #[trigger] nonempty(parts)[i] == parts[j] by {
            if i < p.len() {
                let j = choose|j: int|
                    0 <= j < parts.drop_last().len() && #[trigger] p[i] == parts.drop_last()[j];
                assert(nonempty(parts)[i] == parts[j]);
            } else {
                assert(nonempty(parts)[i] == parts[parts.len() - 1]);
            }
        }
    }
}

/// Joining nonempty pieces free of the one-character separator gives text
/// that neither starts nor ends with it and never holds it twice in a row;
/// every other character comes from a piece.
pub proof fn lemma_join_single_separator(parts: Seq<Seq<char>>, sep: char, q: spec_fn(char) -> bool)
    requires
        forall|i: int| 0 <= i < parts.len() ==> (#[trigger] parts[i]).len() > 0,
        forall|i: int, j: int|
            0 <= i < parts.len() && 0 <= j < parts[i].len() ==> q(#[trigger] parts[i][j])
                && parts[i][j] != sep,
    ensures
        ({
            let r = join(parts, seq![sep]);
            &&& r.len() > 0 ==> r[0] != sep && r.last() != sep
            &&& forall|m: int| 0 <= m < r.len() - 1 ==> !(#[trigger] r[m] == sep && r[m + 1] == sep)
            &&& forall|m: int| 0 <= m < r.len() ==> #[trigger] r[m] == sep || q(r[m])
        }),
    decreases parts.len(),
{
    if parts.len() == 1 {
        let r = join(parts, seq![sep]);
        assert(r == parts[0]);
        assert forall|m: int| 0 <= m < r.len() implies #[trigger] r[m] == sep || q(r[m]) by {
            assert(q(parts[0][m]));
        }
    } else if parts.len() > 1 {
        let init = parts.drop_last();
        lemma_join_single_separator(init, sep, q);
        let a = join(init, seq![sep]);
        let l = parts.last();
        let r = join(parts, seq![sep]);
        assert(r == a + seq![sep] + l);
        assert(l.len() > 0);
        assert(init[0].len() > 0);
        assert(a.len() > 0) by {
            lemma_join_len(init, seq![sep]);
        }
        assert(l[l.len() - 1] != sep);
        assert(r.last() == l[l.len() - 1]);
        assert(r[0] == a[0]);
        assert forall|m: int| 0 <= m < r.len() implies #[trigger] r[m] == sep || q(r[m]) by {
            if m < a.len() {
                assert(r[m] == a[m]);
            } else if m > a.len() {
                assert(r[m] == l[m - a.len() - 1]);
                assert(q(parts[parts.len() - 1][m - a.len() - 1]));
            }
        }
        assert forall|m: int| 0 <= m < r.len() - 1 implies !(#[trigger] r[m] == sep && r[m + 1]
            == sep) by {
            if m < a.len() - 1 {
                assert(r[m] == a[m] && r[m + 1] == a[m + 1]);
            } else if m == a.len() - 1 {
                assert(r[m] == a.last());
            } else if m == a.len() {
                assert(r[m + 1] == l[0]);
                assert(parts[parts.len() - 1][0] != sep);
            } else {
                assert(r[m] == l[m - a.len() - 1]);
                assert(parts[parts.len() - 1][m - a.len() - 1] != sep);
            }
        }
    }
}

/// Splitting text extended by characters outside the set extends the last
/// piece.
pub proof fn lemma_split_append_plain(a: Seq<char>, b: Seq<char>, k: CharSet)
    requires
        forall|i: int| 0 <= i < b.len() ==> !in_set(k, #[trigger] b[i]),
    ensures
        split_by(a + b, k) == split_by(a, k).update(
            split_by(a, k).len() - 1,
            split_by(a, k).last() + b,
        ),
    decreases b.len(),
{
    lemma_split_by_nonempty(a, k);
    let sa = split_by(a, k);
    if b.len() == 0 {
        assert(a + b =~= a);
        assert(sa.update(sa.len() - 1, sa.last() + b) =~= sa);
    } else {
        let b0 = b.drop_last();
        lemma_split_append_plain(a, b0, k);
        assert((a + b).drop_last() =~= a + b0);
        assert((a + b).last() == b.last());
        assert(!in_set(k, b[b.len() - 1]));
        let prev = split_by(a + b0, k);
        assert(prev.len() == sa.len());
        assert(prev.last() == sa.last() + b0);
        assert((sa.last() + b0).push(b.last()) =~= sa.last() + b);
        assert(split_by(a + b, k) == prev.update(prev.len() - 1, prev.last().push(b.last())));
        assert(prev.update(prev.len() - 1, prev.last().push(b.last())) =~= sa.update(
            sa.len() - 1,
            sa.last() + b,
        ));
    }
}

/// Joined pieces free of the set split back into the same pieces, when
/// the separator is in the set.
pub proof fn lemma_split_join(parts: Seq<Seq<char>>, c: char, k: CharSet)
    requires
        parts.len() >= 1,
        in_set(k, c),
        forall|i: int, j: int| 0 <= i < parts.len() && 0 <= j < parts[i].len() ==> !in_set(k, #[trigger] parts[i][j]),
    ensures
        split_by(join(parts, seq![c]), k) == parts,
    decreases parts.len(),
{
    let l = parts.last();
    assert forall|j: int| 0 <= j < l.len() implies !in_set(k, #[trigger] l[j]) by {
        assert(l[j] == parts[parts.len() - 1][j]);
    }
    if parts.len() == 1 {
        lemma_split_append_plain(Seq::<char>::empty(), l, k);
        assert(Seq::<char>::empty() + l =~= l);
        assert(seq![Seq::<char>::empty()].update(0, Seq::<char>::empty() + l) =~= parts);
    } else {
        let init = parts.drop_last();
        assert forall|i: int, j: int| 0 <= i < init.len() && 0 <= j < init[i].len() implies !in_set(
            k,
            #[trigger] init[i][j],
        ) by {
            assert(init[i] == parts[i]);
        }
        lemma_split_join(init, c, k);
        let a = join(init, seq![c]) + seq![c];
        assert((a).drop_last() =~= join(init, seq![c]));
        assert(split_by(a, k) == init.push(Seq::<char>::empty()));
        lemma_split_append_plain(a, l, k);
        assert(join(parts, seq![c]) =~= a + l);
        assert(init.push(Seq::<char>::empty()).update(init.len() as int, Seq::<char>::empty() + l) =~= parts);
    }
}

/// Pieces that are all nonempty are kept as they are.
pub proof fn lemma_nonempty_all(parts: Seq<Seq<char>>)
    requires
        forall|i: int| 0 <= i < parts.len() ==> (#[trigger] parts[i]).len() > 0,
    ensures
        nonempty(parts) == parts,
    decreases parts.len(),
{
    if parts.len() > 0 {
        let init = parts.drop_last();
        assert forall|i: int| 0 <= i < init.len() implies (#[trigger] init[i]).len() > 0 by {
            assert(init[i] == parts[i]);
        }
        lemma_nonempty_all(init);
        assert(parts.last().len() > 0);
        assert(init.push(parts.last()) =~= parts);
    }
}

/// The characters outside a set.
pub open spec fn outside(k: CharSet) -> spec_fn(char) -> bool {
    |c: char| !in_set(k, c)
}

/// The pieces written one after another.
pub open spec fn concat(parts: Seq<Seq<char>>) -> Seq<char>
    decreases parts.len(),
{
    if parts.len() == 0 {
        Seq::<char>::empty()
    } else {
        concat(parts.drop_last()) + parts.last()
    }
}

/// Splitting loses only the separators: the pieces, written one after
/// another, hold the other characters in order.
pub proof fn lemma_split_keeps_others(s: Seq<char>, k: CharSet)
    ensures
        concat(split_by(s, k)).filter(outside(k)) == s.filter(outside(k)),
    decreases s.len(),
{
    let f = outside(k);
    if s.len() == 0 {
        let one = split_by(s, k);
        assert(one.drop_last() =~= Seq::<Seq<char>>::empty());
        assert(concat(one.drop_last()) == Seq::<char>::empty());
        assert(concat(one) =~= Seq::<char>::empty());
        assert(s.filter(f) =~= Seq::<char>::empty()) by {
            reveal(Seq::filter);
        }
        assert(concat(split_by(s, k)).filter(f) =~= Seq::<char>::empty()) by {
            reveal(Seq::filter);
        }
    } else {
        let init = s.drop_last();
        let c = s.last();
        lemma_split_keeps_others(init, k);
        lemma_split_by_nonempty(init, k);
        let prev = split_by(init, k);
        assert(s =~= init.push(c));
        init.lemma_filter_push(c, f);
        if in_set(k, c) {
            let next = prev.push(Seq::<char>::empty());
            assert(next.drop_last() =~= prev);
            assert(concat(next) =~= concat(prev));
        } else {
            let next = prev.update(prev.len() - 1, prev.last().push(c));
            assert(next.drop_last() =~= prev.drop_last());
            assert(concat(prev) == concat(prev.drop_last()) + prev.last());
            assert(concat(next) =~= concat(prev).push(c));
            concat(prev).lemma_filter_push(c, f);
        }
    }
}

/// Dropping empty pieces changes nothing written out.
pub proof fn lemma_nonempty_concat(parts: Seq<Seq<char>>)
    ensures
        concat(nonempty(parts)) == concat(parts),
    decreases parts.len(),
{
    if parts.len() > 0 {
        lemma_nonempty_concat(parts.drop_last());
        if parts.last().len() == 0 {
            assert(concat(parts) =~= concat(parts.drop_last()));
        } else {
            let n = nonempty(parts.drop_last()).push(parts.last());
            assert(n.drop_last() =~= nonempty(parts.drop_last()));
        }
    }
}

/// A separator the filter drops leaves the joined pieces as they were
/// written one after another.
pub proof fn lemma_join_filter(parts: Seq<Seq<char>>, sep: Seq<char>, f: spec_fn(char) -> bool)
    requires
        sep.filter(f) == Seq::<char>::empty(),
    ensures
        join(parts, sep).filter(f) == concat(parts).filter(f),
    decreases parts.len(),
{
    if parts.len() == 1 {
        assert(parts.drop_last() =~= Seq::<Seq<char>>::empty());
        assert(concat(parts.drop_last()) == Seq::<char>::empty());
        assert(concat(parts) =~= parts[0]);
    } else if parts.len() > 1 {
        lemma_join_filter(parts.drop_last(), sep, f);
        let j = join(parts.drop_last(), sep);
        Seq::filter_distributes_over_add(j + sep, parts.last(), f);
        Seq::filter_distributes_over_add(j, sep, f);
        Seq::filter_distributes_over_add(concat(parts.drop_last()), parts.last(), f);
        assert(j.filter(f) + Seq::<char>::empty() =~= j.filter(f));
    }
}

/// Joining the nonempty pieces of a split with one separator character,
/// then dropping that character, leaves the other characters in order.
pub proof fn lemma_rejoin_keeps_others(s: Seq<char>, c: char)
    ensures
        join(nonempty(split_by(s, CharSet::One(c))), seq![c]).filter(outside(CharSet::One(c)))
            == s.filter(outside(CharSet::One(c))),
{
    let k = CharSet::One(c);
    let f = outside(k);
    let parts = split_by(s, k);
    assert(seq![c].filter(f) =~= Seq::<char>::empty()) by {
        reveal_with_fuel(Seq::filter, 2);
    }
    lemma_join_filter(nonempty(parts), seq![c], f);
    lemma_nonempty_concat(parts);
    lemma_split_keeps_others(s, k);
}

pub proof fn lemma_join_len(parts: Seq<Seq<char>>, sep: Seq<char>)
    requires
        parts.len() > 0,
    ensures
        join(parts, sep).len() >= parts[0].len(),
    decreases parts.len(),
{
    if parts.len() > 1 {
        lemma_join_len(parts.drop_last(), sep);
    }
}

pub fn split_on(s: &[char], k: CharSet) -> (r: Vec<Vec<char>>)
    ensures
        views(r@) == split_by(s@, k),
{
    let mut done: Vec<Vec<char>> = Vec::new();
    let mut cur: Vec<char> = Vec::new();
    let mut i: usize = 0;
    assert(s@.take(0) =~= Seq::<char>::empty());
    assert(views(done@).push(cur@) =~= split_by(s@.take(0), k));
    while i < s.len()
        invariant
            i <= s.len(),
            views(done@).push(cur@) == split_by(s@.take(i as int), k),
        decreases s.len() - i,
    {
        let c = s[i];
        let ghost prev = split_by(s@.take(i as int), k);
        assert(s@.take(i + 1).drop_last() =~= s@.take(i as int));
        assert(s@.take(i + 1).last() == c);
        if member(k, c) {
            let piece = cur;
            done.push(piece);
            cur = Vec::new();
            assert(views(done@).push(cur@) =~= prev.push(Seq::<char>::empty()));
        } else {
            cur.push(c);
            assert(views(done@).push(cur@) =~= prev.update(
                prev.len() - 1,
                prev.last().push(c),
            ));
        }
        i = i + 1;
    }
    assert(s@.take(s.len() as int) =~= s@);
    done.push(cur);
    done
}

pub fn keep_nonempty(parts: &Vec<Vec<char>>) -> (r: Vec<Vec<char>>)
    ensures
        views(r@) == nonempty(views(parts@)),
{
    let mut r: Vec<Vec<char>> = Vec::new();
    let mut i: usize = 0;
    while i < parts.len()
        invariant
            i <= parts.len(),
            views(r@) == nonempty(views(parts@).take(i as int)),
        decreases parts.len() - i,
    {
        assert(views(parts@).take(i + 1).drop_last() =~= views(parts@).take(i as int));
        assert(views(parts@).take(i + 1).last() == parts@[i as int]@);
        if parts[i].len() > 0 {
            r.push(parts[i].clone());
            assert(views(r@) =~= nonempty(views(parts@).take(i as int)).push(parts@[i as int]@));
        }
        i = i + 1;
    }
    assert(views(parts@).take(parts.len() as int) =~= views(parts@));
    r
}

pub fn join_with(parts: &Vec<Vec<char>>, sep: &[char]) -> (r: Vec<char>)
    ensures
        r@ == join(views(parts@), sep@),
{
    let mut r: Vec<char> = Vec::new();
    let mut i: usize = 0;
    while i < parts.len()
        invariant
            i <= parts.len(),
            r@ == join(views(parts@).take(i as int), sep@),
        decreases parts.len() - i,
    {
        assert(views(parts@).take(i + 1).drop_last() =~= views(parts@).take(i as int));
        if i > 0 {
            r.extend_from_slice(sep);
        }
        r.extend_from_slice(parts[i].as_slice());
        proof {
            if i == 0 {
                assert(views(parts@).take(1) =~= seq![parts@[0]@]);
                assert(r@ =~= parts@[0]@);
            } else {
                assert(r@ =~= join(views(parts@).take(i as int), sep@) + sep@ + parts@[i as int]@);
            }
        }
        i = i + 1;
    }
    assert(views(parts@).take(parts.len() as int) =~= views(parts@));
    r
}

/// `split_whitespace().collect()`.
pub fn split_words(s: &[char]) -> (r: Vec<Vec<char>>)
    ensures
        views(r@) == words(s@),
{
    let parts = split_on(s, CharSet::Whitespace);
    keep_nonempty(&parts)
}


// ---------------------------------------------------------------------------
// Lines (`str::lines`)
// ---------------------------------------------------------------------------

/// Remove one trailing carriage return.
pub open spec fn strip_cr(l: Seq<char>) -> Seq<char> {
    if l.len() > 0 && l.last() == '\r' {
        l.drop_last()
    } else {
        l
    }
}

/// `str::lines`: split at `'\n'`; a line ended by `"\r\n"` loses the `'\r'`;
/// a final line ending does not start an extra empty line.
pub open spec fn lines(s: Seq<char>) -> Seq<Seq<char>> {
    let p = split_by(s, CharSet::One('\n'));
    let body = p.drop_last().map_values(|l: Seq<char>| strip_cr(l));
    if p.last().len() == 0 {
        body
    } else {
        body.push(p.last())
    }
}

/// Lines come back verbatim: text made of lines, each ended by `\n`, reads
/// back as those same lines (leading and trailing whitespace intact), when
/// no line holds a `\n` or ends with `\r`.
pub proof fn law_lines_verbatim(ls: Seq<Seq<char>>)
    requires
        forall|i: int, j: int| 0 <= i < ls.len() && 0 <= j < ls[i].len() ==> #[trigger] ls[i][j] != '\n',
        forall|i: int| 0 <= i < ls.len() ==> !((#[trigger] ls[i]).len() > 0 && ls[i].last() == '\r'),
    ensures
        lines(join(ls.push(Seq::<char>::empty()), seq!['\n'])) == ls,
{
    let parts = ls.push(Seq::<char>::empty());
    assert forall|i: int, j: int| 0 <= i < parts.len() && 0 <= j < parts[i].len() implies !in_set(
        CharSet::One('\n'),
        #[trigger] parts[i][j],
    ) by {
        assert(parts[i] == ls[i]);
    }
    lemma_split_join(parts, '\n', CharSet::One('\n'));
    assert(parts.drop_last() =~= ls);
    assert(ls.map_values(|l: Seq<char>| strip_cr(l)) =~= ls);
}

pub fn strip_carriage_return(l: &[char]) -> (r: Vec<char>)
    ensures
        r@ == strip_cr(l@),
{
    if l.len() > 0 && l[l.len() - 1] == '\r' {
        let r = copy_range(l, 0, l.len() - 1);
        assert(r@ =~= l@.drop_last());
        r
    } else {
        let r = copy_range(l, 0, l.len());
        assert(r@ =~= l@);
        r
    }
}

pub fn split_lines(s: &[char]) -> (r: Vec<Vec<char>>)
    ensures
        views(r@) == lines(s@),
{
    let parts = split_on(s, CharSet::One('\n'));
    proof {
        lemma_split_by_nonempty(s@, CharSet::One('\n'));
    }
    let n = parts.len() - 1;
    let mut r: Vec<Vec<char>> = Vec::new();
    let mut i: usize = 0;
    while i < n
        invariant
            n + 1 == parts.len(),
            i <= n,
            views(parts@) == split_by(s@, CharSet::One('\n')),
            views(r@) == views(parts@).take(i as int).map_values(|l: Seq<char>| strip_cr(l)),
        decreases n - i,
    {
        let l = strip_carriage_return(parts[i].as_slice());
        let ghost before = views(r@);
        r.push(l);
        proof {
            assert(views(r@) =~= before.push(strip_cr(parts@[i as int]@)));
            assert(views(parts@)[i as int] == parts@[i as int]@);
        }
        i = i + 1;
        assert(views(r@) =~= views(parts@).take(i as int).map_values(
            |l: Seq<char>| strip_cr(l),
        ));
    }
    assert(views(parts@).take(n as int) =~= views(parts@).drop_last());
    if parts[n].len() > 0 {
        r.push(parts[n].clone());
    }
    r
}

// ---------------------------------------------------------------------------
// Decimal and hexadecimal numerals
// ---------------------------------------------------------------------------

pub open spec fn digit_char(d: nat) -> char {
    (48 + d) as char
}

/// The decimal numeral of `n` without leading zeros (`format!("{}", n)`).
pub open spec fn decimal(n: nat) -> Seq<char>
    decreases n,
{
    if n < 10 {
        seq![digit_char(n)]
    } else {
        decimal(n / 10).push(digit_char(n % 10))
    }
}

pub fn digit(d: u64) -> (c: char)
    requires
        d < 10,
    ensures
        c == digit_char(d as nat),
{
    ((d as u8) + 48u8) as char
}

pub fn decimal_of(n: u64) -> (r: Vec<char>)
    ensures
        r@ == decimal(n as nat),
    decreases n,
{
    if n < 10 {
        let mut r: Vec<char> = Vec::new();
        r.push(digit(n));
        assert(r@ =~= seq![digit_char(n as nat)]);
        r
    } else {
        let mut r = decimal_of(n / 10);
        r.push(digit(n % 10));
        r
    }
}

pub open spec fn hex_char(d: nat) -> char {
    if d < 10 {
        (48 + d) as char
    } else {
        (87 + d) as char
    }
}

/// The lowest `width` hexadecimal digits of `n`, lowercase, most significant
/// first (`format!("{:0width$x}", n)` when `n < 16^width`).
pub open spec fn hex_digits(n: nat, width: nat) -> Seq<char>
    decreases width,
{
    if width == 0 {
        Seq::<char>::empty()
    } else {
        hex_digits(n / 16, (width - 1) as nat).push(hex_char(n % 16))
    }
}

pub fn hex_of(n: u64, width: usize) -> (r: Vec<char>)
    ensures
        r@ == hex_digits(n as nat, width as nat),
    decreases width,
{
    if width == 0 {
        Vec::new()
    } else {
        let mut r = hex_of(n / 16, width - 1);
        let d = n % 16;
        let c = if d < 10 {
            ((d as u8) + 48u8) as char
        } else {
            ((d as u8) + 87u8) as char
        };
        r.push(c);
        r
    }
}

pub open spec fn all_digits(s: Seq<char>) -> bool {
    forall|i: int| 0 <= i < s.len() ==> is_ascii_digit(#[trigger] s[i])
}

/// The value of a string of decimal digits.
pub open spec fn digits_value(s: Seq<char>) -> nat
    decreases s.len(),
{
    if s.len() == 0 {
        0
    } else {
        digits_value(s.drop_last()) * 10 + ((s.last() as u32) - 48) as nat
    }
}

/// The digits that `str::parse` reads for an unsigned integer: one leading
/// `'+'` is allowed.
pub open spec fn unsigned_digits(s: Seq<char>) -> Seq<char> {
    if s.len() > 0 && s[0] == '+' {
        s.drop_first()
    } else {
        s
    }
}

/// What `str::parse::<uN>()` gives, for an unsigned type whose largest value is `max`.
pub open spec fn parse_unsigned(s: Seq<char>, max: nat) -> Option<nat> {
    let d = unsigned_digits(s);
    if d.len() > 0 && all_digits(d) && digits_value(d) <= max {
        Some(digits_value(d))
    } else {
        None
    }
}

pub proof fn lemma_digits_value_prefix(s: Seq<char>, i: int)
    requires
        0 <= i <= s.len(),
        all_digits(s),
    ensures
        digits_value(s.take(i)) <= digits_value(s),
    decreases s.len(),
{
    if i < s.len() {
        let t = s.drop_last();
        assert(t.take(i) =~= s.take(i));
        assert forall|k: int| 0 <= k < t.len() implies is_ascii_digit(#[trigger] t[k]) by {
            assert(t[k] == s[k]);
        }
        lemma_digits_value_prefix(t, i);
    } else {
        assert(s.take(i) =~= s);
    }
}

/// `str::parse::<u64>()` (and, with a smaller `max`, the narrower unsigned types).
pub fn parse_unsigned_max(s: &[char], max: u64) -> (r: Option<u64>)
    ensures
        r matches Some(v) ==> parse_unsigned(s@, max as nat) == Some(v as nat),
        r is None ==> parse_unsigned(s@, max as nat) is None,
{
    let start: usize = if s.len() > 0 && s[0] == '+' {
        1
    } else {
        0
    };
    let ghost d = unsigned_digits(s@);
    assert(d =~= s@.skip(start as int));
    if start >= s.len() {
        assert(d.len() == 0);
        return None;
    }
    let mut v: u64 = 0;
    let mut i: usize = start;
    while i < s.len()
        invariant
            start <= i <= s.len(),
            d == s@.skip(start as int),
            d == unsigned_digits(s@),
            forall|k: int| start <= k < i ==> is_ascii_digit(#[trigger] s@[k]),
            v as nat == digits_value(d.take(i - start)),
            v <= max,
        decreases s.len() - i,
    {
        let c = s[i];
        if !ascii_digit(c) {
            assert(d[(i - start) as int] == c);
            assert(!is_ascii_digit(d[(i - start) as int]));
            return None;
        }
        let dv = (c as u32 - 48) as u64;
        assert(d.take(i + 1 - start).drop_last() =~= d.take(i - start));
        assert(d.take(i + 1 - start).last() == c);
        if dv > max || v > (max - dv) / 10 {
            proof {
                if dv <= max {
                    let m = (max - dv) as int;
                    assert(v * 10 + dv > max) by (nonlinear_arith)
                        requires
                            v > m / 10,
                            m >= 0,
                            m + dv == max,
                    ;
                }
                assert(digits_value(d.take(i + 1 - start)) == v * 10 + dv);
                if all_digits(d) {
                    lemma_digits_value_prefix(d, i + 1 - start);
                    assert(digits_value(d) > max);
                }
            }
            return None;
        }
        v = v * 10 + dv;
        i = i + 1;
    }
    assert(d.take(s.len() - start) =~= d);
    Some(v)
}


// ---------------------------------------------------------------------------
// FNV-1a hashing
// ---------------------------------------------------------------------------

pub open spec fn fnv_offset() -> u64 {
    0xcbf29ce484222325
}

pub open spec fn fnv_prime() -> u64 {
    0x100000001b3
}

/// 64-bit FNV-1a over bytes.
pub open spec fn fnv1a(bytes: Seq<u8>) -> u64
    decreases bytes.len(),
{
    if bytes.len() == 0 {
        fnv_offset()
    } else {
        (((fnv1a(bytes.drop_last()) ^ (bytes.last() as u64)) as nat * fnv_prime() as nat)
            % 0x10000000000000000) as u64
    }
}

pub fn fnv1a_of(bytes: &[u8]) -> (hash: u64)
    ensures
        hash == fnv1a(bytes@),
{
    let mut hash: u64 = 0xcbf29ce484222325;
    let mut i: usize = 0;
    while i < bytes.len()
        invariant
            i <= bytes.len(),
            hash == fnv1a(bytes@.take(i as int)),
        decreases bytes.len() - i,
    {
        assert(bytes@.take(i + 1).drop_last() =~= bytes@.take(i as int));
        hash = (hash ^ (bytes[i] as u64)).wrapping_mul(0x100000001b3);
        i = i + 1;
    }
    assert(bytes@.take(bytes.len() as int) =~= bytes@);
    hash
}

// ---------------------------------------------------------------------------
// Conversions between `str`/`String` and character vectors
// ---------------------------------------------------------------------------

/// The characters of `s`, in order.
pub fn chars_of(s: &str) -> (v: Vec<char>)
    ensures
        v@ == s@,
{
    let mut v: Vec<char> = Vec::new();
    for c in it: s.chars()
        invariant
            it.seq() == s@,
            v@ == it.seq().take(it.index() as int),
    {
        v.push(c);
        assert(it.seq().take(it.index() + 1) =~= v@);
    }
    assert(s@.take(s@.len() as int) =~= s@);
    v
}


/// Whether two texts are equal, character for character.
pub fn str_eq(a: &str, b: &str) -> (r: bool)
    ensures
        r == (a@ == b@),
{
    same_chars(&chars_of(a), &chars_of(b))
}

/// Collects characters into a `String` (`FromIterator<&char> for String`):
/// the string holds exactly the given characters, in order.
#[verifier::external_body]
pub(crate) fn string_of(v: &[char]) -> (s: String)
    ensures
        s@ == v@,
{
    v.iter().collect()
}

// ---------------------------------------------------------------------------
// Unicode case mapping and character properties (std, Unicode tables)
// ---------------------------------------------------------------------------

/// What `str::to_lowercase` gives for text that is not all ASCII.
pub uninterp spec fn unicode_lowercase_text(s: Seq<char>) -> Seq<char>;

/// What `str::to_uppercase` gives for text that is not all ASCII.
pub uninterp spec fn unicode_uppercase_text(s: Seq<char>) -> Seq<char>;

/// What `char::to_uppercase` yields for a character outside ASCII.
pub uninterp spec fn unicode_char_uppercase_non_ascii(c: char) -> Seq<char>;

/// `char::is_alphanumeric` outside ASCII.
pub uninterp spec fn unicode_alphanumeric_non_ascii(c: char) -> bool;

/// `char::is_alphabetic` outside ASCII.
pub uninterp spec fn unicode_alphabetic_non_ascii(c: char) -> bool;

/// `char::is_lowercase` outside ASCII.
pub uninterp spec fn unicode_lowercase_non_ascii(c: char) -> bool;

/// `str::to_lowercase`: on ASCII text, the ASCII lowercase of each character.
pub open spec fn unicode_lowercase(s: Seq<char>) -> Seq<char> {
    if all_ascii(s) {
        ascii_lower_seq(s)
    } else {
        unicode_lowercase_text(s)
    }
}

/// `str::to_uppercase`: on ASCII text, the ASCII uppercase of each character.
pub open spec fn unicode_uppercase(s: Seq<char>) -> Seq<char> {
    if all_ascii(s) {
        ascii_upper_seq(s)
    } else {
        unicode_uppercase_text(s)
    }
}

/// `char::to_uppercase`: for an ASCII character, its ASCII uppercase alone.
pub open spec fn unicode_char_uppercase(c: char) -> Seq<char> {
    if is_ascii_char(c) {
        seq![ascii_upper(c)]
    } else {
        unicode_char_uppercase_non_ascii(c)
    }
}

/// `char::is_alphanumeric`: on ASCII, letters and digits.
pub open spec fn unicode_alphanumeric(c: char) -> bool {
    if is_ascii_char(c) {
        is_ascii_alnum(c)
    } else {
        unicode_alphanumeric_non_ascii(c)
    }
}

/// `char::is_alphabetic`: on ASCII, letters.
pub open spec fn unicode_alphabetic(c: char) -> bool {
    if is_ascii_char(c) {
        is_ascii_alpha(c)
    } else {
        unicode_alphabetic_non_ascii(c)
    }
}

/// `char::is_lowercase`: on ASCII, `'a'..='z'`.
pub open spec fn unicode_lowercase_char(c: char) -> bool {
    if is_ascii_char(c) {
        is_ascii_lower(c)
    } else {
        unicode_lowercase_non_ascii(c)
    }
}

/// Calls `str::to_lowercase`. The result is a function of the string alone;
/// on ASCII text it is the ASCII lowercase of each character. Nothing is
/// stated of the Unicode tables beyond ASCII.
#[verifier::external_body]
pub(crate) fn to_lowercase(s: &[char]) -> (r: Vec<char>)
    ensures
        r@ == unicode_lowercase(s@),
        !all_ascii(s@) ==> r@ == unicode_lowercase_text(s@),
{
    let t: String = s.iter().collect();
    t.to_lowercase().chars().collect()
}

/// Calls `str::to_uppercase`. The result is a function of the string alone;
/// on ASCII text it is the ASCII uppercase of each character. Nothing is
/// stated of the Unicode tables beyond ASCII.
#[verifier::external_body]
pub(crate) fn to_uppercase(s: &[char]) -> (r: Vec<char>)
    ensures
        r@ == unicode_uppercase(s@),
        !all_ascii(s@) ==> r@ == unicode_uppercase_text(s@),
{
    let t: String = s.iter().collect();
    t.to_uppercase().chars().collect()
}

/// Calls `char::to_uppercase` and collects what it yields; for an ASCII
/// character that is its ASCII uppercase alone.
#[verifier::external_body]
pub(crate) fn char_to_uppercase(c: char) -> (r: Vec<char>)
    ensures
        r@ == unicode_char_uppercase(c),
        !is_ascii_char(c) ==> r@ == unicode_char_uppercase_non_ascii(c),
{
    c.to_uppercase().collect()
}

/// Calls `char::is_alphanumeric`; on ASCII it holds exactly of letters and digits.
#[verifier::external_body]
pub(crate) fn is_alphanumeric(c: char) -> (r: bool)
    ensures
        r == unicode_alphanumeric(c),
        !is_ascii_char(c) ==> r == unicode_alphanumeric_non_ascii(c),
{
    c.is_alphanumeric()
}

/// Calls `char::is_alphabetic`; on ASCII it holds exactly of letters.
#[verifier::external_body]
pub(crate) fn is_alphabetic(c: char) -> (r: bool)
    ensures
        r == unicode_alphabetic(c),
        !is_ascii_char(c) ==> r == unicode_alphabetic_non_ascii(c),
{
    c.is_alphabetic()
}

/// Calls `char::is_lowercase`; on ASCII it holds exactly of `'a'..='z'`.
#[verifier::external_body]
pub(crate) fn is_lowercase(c: char) -> (r: bool)
    ensures
        r == unicode_lowercase_char(c),
        !is_ascii_char(c) ==> r == unicode_lowercase_non_ascii(c),
{
    c.is_lowercase()
}

} // verus!
