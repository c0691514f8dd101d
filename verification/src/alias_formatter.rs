//! Reusable formatting and matching for model/feature aliases.
use crate::text::{
    ascii_alpha, ascii_digit, ascii_lower_seq, chars_of, char_to_uppercase,
    copy_range, is_alphabetic, is_alphanumeric, is_ascii_alpha, is_ascii_char, is_ascii_digit,
    is_lowercase, join, join_with, keep_nonempty, nonempty, same_chars, split_by, split_on,
    split_words, string_of, lemma_views_push, all_ascii, lemma_trim_start_shape,
    lemma_trim_end_shape, trim_start, trim_end, to_lowercase, to_uppercase, trim, trim_with, trim_ws,
    unicode_alphabetic, unicode_alphanumeric, unicode_char_uppercase, unicode_lowercase,
    unicode_lowercase_char, unicode_uppercase, views, words, CharSet,
};
use vstd::prelude::*;

verus! {

// ---------------------------------------------------------------------------
// Specification
// ---------------------------------------------------------------------------

/// Feature tokens that must stay fully uppercase.
pub open spec fn is_acronym(s: Seq<char>) -> bool {
    s == seq!['M', 'T', 'P'] || s == seq!['V', 'L', 'M'] || s == seq!['G', 'P', 'U'] || s
        == seq!['C', 'P', 'U'] || s == seq!['C', 'U', 'D', 'A'] || s == seq!['R', 'O', 'C', 'M']
        || s == seq!['A', 'P', 'I']
}

/// First character uppercased (Unicode), the rest unchanged.
pub open spec fn capitalized(t: Seq<char>) -> Seq<char> {
    if t.len() == 0 {
        t
    } else {
        unicode_char_uppercase(t[0]) + t.drop_first()
    }
}

/// Known model family names mapped to their pretty form; other tokens are
/// capitalized.
pub open spec fn pretty_family_of(t: Seq<char>) -> Seq<char> {
    let l = unicode_lowercase(t);
    if l == seq!['q', 'w', 'e', 'n'] {
        seq!['Q', 'w', 'e', 'n']
    } else if l == seq!['l', 'l', 'a', 'm', 'a'] {
        seq!['L', 'l', 'a', 'm', 'a']
    } else if l == seq!['m', 'i', 's', 't', 'r', 'a', 'l'] {
        seq!['M', 'i', 's', 't', 'r', 'a', 'l']
    } else if l == seq!['g', 'e', 'm', 'm', 'a'] {
        seq!['G', 'e', 'm', 'm', 'a']
    } else if l == seq!['p', 'h', 'i'] {
        seq!['P', 'h', 'i']
    } else if l == seq!['d', 'e', 'e', 'p', 's', 'e', 'e', 'k'] {
        seq!['D', 'e', 'e', 'p', 'S', 'e', 'e', 'k']
    } else {
        capitalized(t)
    }
}

/// A size marker such as `27B` or `4b`: a nonempty run of ASCII digits
/// followed by a nonempty run of ASCII letters, and nothing else.
pub open spec fn is_size(t: Seq<char>) -> bool {
    exists|k: int| 0 < k < t.len() && #[trigger] size_split(t, k)
}

/// `t[..k]` are ASCII digits and `t[k..]` are ASCII letters.
pub open spec fn size_split(t: Seq<char>, k: int) -> bool {
    (forall|i: int| 0 <= i < k ==> is_ascii_digit(#[trigger] t[i])) && (forall|i: int|
        k <= i < t.len() ==> is_ascii_alpha(#[trigger] t[i]))
}

pub open spec fn pretty_model_token(t: Seq<char>) -> Seq<char> {
    if is_size(t) {
        unicode_uppercase(t)
    } else {
        pretty_family_of(t)
    }
}

pub open spec fn trimmed_parts(parts: Seq<Seq<char>>) -> Seq<Seq<char>> {
    parts.map_values(|p: Seq<char>| trim(p, CharSet::Whitespace))
}

pub open spec fn pretty_tokens(ts: Seq<Seq<char>>) -> Seq<Seq<char>> {
    ts.map_values(|t: Seq<char>| pretty_model_token(t))
}

/// `qwen-27B` -> `Qwen-27B`: the `-`-separated tokens, trimmed, empty ones
/// dropped, each prettified, joined again by `-`.
pub open spec fn pretty_model_of(raw: Seq<char>) -> Seq<char> {
    join(pretty_tokens(nonempty(trimmed_parts(split_by(raw, CharSet::One('-'))))), seq!['-'])
}

pub open spec fn title_word(w: Seq<char>) -> Seq<char> {
    let up = unicode_uppercase(w);
    if is_acronym(up) {
        up
    } else {
        capitalized(unicode_lowercase(w))
    }
}

pub open spec fn title_words(ws: Seq<Seq<char>>) -> Seq<Seq<char>> {
    ws.map_values(|w: Seq<char>| title_word(w))
}

/// Words separated by spaces, dashes or underscores, each title-cased
/// (acronyms uppercase), joined by single spaces.
pub open spec fn title_case_of(s: Seq<char>) -> Seq<char> {
    join(title_words(nonempty(split_by(s, CharSet::WordSeparators))), seq![' '])
}

pub open spec fn has_alphabetic(s: Seq<char>) -> bool {
    exists|i: int| 0 <= i < s.len() && unicode_alphabetic(#[trigger] s[i])
}

pub open spec fn has_lowercase(s: Seq<char>) -> bool {
    exists|i: int| 0 <= i < s.len() && unicode_lowercase_char(#[trigger] s[i])
}

/// Acronyms stay uppercase; text that is already uppercase stays as written;
/// everything else is title-cased.
pub open spec fn pretty_feature_of(raw: Seq<char>) -> Seq<char> {
    let trimmed = trim(raw, CharSet::Whitespace);
    let upper = unicode_uppercase(trimmed);
    if is_acronym(upper) {
        upper
    } else if has_alphabetic(trimmed) && !has_lowercase(trimmed) {
        trimmed
    } else {
        title_case_of(trimmed)
    }
}

/// Alphanumeric characters are kept; every run of other characters becomes
/// one `-`.
pub open spec fn collapse_separators(s: Seq<char>) -> Seq<char>
    decreases s.len(),
{
    if s.len() == 0 {
        s
    } else {
        let p = collapse_separators(s.drop_last());
        if unicode_alphanumeric(s.last()) {
            p.push(s.last())
        } else if p.len() > 0 && p.last() == '-' {
            p
        } else {
            p.push('-')
        }
    }
}

/// Lowercase id component: separators collapsed to single dashes, no dash at
/// either end.
pub open spec fn id_part_of(raw: Seq<char>) -> Seq<char> {
    trim(
        collapse_separators(unicode_lowercase(trim(raw, CharSet::Whitespace))),
        CharSet::One('-'),
    )
}

pub open spec fn id_of(model: Seq<char>, feature: Seq<char>) -> Seq<char> {
    id_part_of(model) + seq!['_', '_'] + id_part_of(feature)
}

pub open spec fn separator_to_space(c: char) -> char {
    if c == '-' || c == '_' {
        ' '
    } else {
        c
    }
}

/// Lowercased, dashes and underscores read as spaces, whitespace runs
/// collapsed to single spaces, no space at either end.
pub open spec fn normalized_alias(s: Seq<char>) -> Seq<char> {
    join(words(spaced(unicode_lowercase(s))), seq![' '])
}

pub open spec fn spaced(s: Seq<char>) -> Seq<char> {
    s.map_values(|c: char| separator_to_space(c))
}

// ---------------------------------------------------------------------------
// Implementation
// ---------------------------------------------------------------------------

fn acronym(s: &[char]) -> (r: bool)
    ensures
        r == is_acronym(s@),
{
    let r = same_chars(s, &['M', 'T', 'P']) || same_chars(s, &['V', 'L', 'M']) || same_chars(
        s,
        &['G', 'P', 'U'],
    ) || same_chars(s, &['C', 'P', 'U']) || same_chars(s, &['C', 'U', 'D', 'A']) || same_chars(
        s,
        &['R', 'O', 'C', 'M'],
    ) || same_chars(s, &['A', 'P', 'I']);
    r
}

fn capitalize(t: &[char]) -> (r: Vec<char>)
    ensures
        r@ == capitalized(t@),
{
    if t.len() == 0 {
        return Vec::new();
    }
    let mut r = char_to_uppercase(t[0]);
    let rest = copy_range(t, 1, t.len());
    let mut rest_mut = rest;
    r.append(&mut rest_mut);
    assert(t@.subrange(1, t@.len() as int) =~= t@.drop_first());
    r
}

fn pretty_family(token: &[char]) -> (r: Vec<char>)
    ensures
        r@ == pretty_family_of(token@),
{
    let l = to_lowercase(token);
    if same_chars(&l, &['q', 'w', 'e', 'n']) {
        vec!['Q', 'w', 'e', 'n']
    } else if same_chars(&l, &['l', 'l', 'a', 'm', 'a']) {
        vec!['L', 'l', 'a', 'm', 'a']
    } else if same_chars(&l, &['m', 'i', 's', 't', 'r', 'a', 'l']) {
        vec!['M', 'i', 's', 't', 'r', 'a', 'l']
    } else if same_chars(&l, &['g', 'e', 'm', 'm', 'a']) {
        vec!['G', 'e', 'm', 'm', 'a']
    } else if same_chars(&l, &['p', 'h', 'i']) {
        vec!['P', 'h', 'i']
    } else if same_chars(&l, &['d', 'e', 'e', 'p', 's', 'e', 'e', 'k']) {
        vec!['D', 'e', 'e', 'p', 'S', 'e', 'e', 'k']
    } else {
        capitalize(token)
    }
}

/// Is the token a size marker like `27B`, `4b`, `7B`?
fn is_size_token(token: &[char]) -> (r: bool)
    ensures
        r == is_size(token@),
{
    if token.len() < 2 {
        return false;
    }
    let mut k: usize = 0;
    while k < token.len() && ascii_digit(token[k])
        invariant
            k <= token.len(),
            forall|i: int| 0 <= i < k ==> is_ascii_digit(#[trigger] token@[i]),
        decreases token.len() - k,
    {
        k = k + 1;
    }
    if k == 0 || k == token.len() {
        proof {
            if is_size(token@) {
                let w = choose|w: int| 0 < w < token@.len() && #[trigger] size_split(token@, w);
                assert(is_ascii_digit(token@[0]));
                if k == token.len() {
                    assert(is_ascii_alpha(token@[w]));
                    assert(is_ascii_digit(token@[w]));
                }
            }
        }
        return false;
    }
    let mut j: usize = k;
    while j < token.len()
        invariant
            0 < k < token.len(),
            !is_ascii_digit(token@[k as int]),
            forall|i: int| 0 <= i < k ==> is_ascii_digit(#[trigger] token@[i]),
            k <= j <= token.len(),
            forall|i: int| k <= i < j ==> is_ascii_alpha(#[trigger] token@[i]),
        decreases token.len() - j,
    {
        if !ascii_alpha(token[j]) {
            proof {
                if is_size(token@) {
                    let w = choose|w: int| 0 < w < token@.len() && #[trigger] size_split(token@, w);
                    if w <= j {
                        assert(is_ascii_alpha(token@[j as int]));
                    } else {
                        assert(is_ascii_digit(token@[k as int]));
                        assert(!is_ascii_digit(token@[k as int]));
                    }
                }
            }
            return false;
        }
        j = j + 1;
    }
    assert(0 < k < token@.len() && size_split(token@, k as int));
    true
}

fn pretty_token(token: &[char]) -> (r: Vec<char>)
    ensures
        r@ == pretty_model_token(token@),
{
    if is_size_token(token) {
        // Preserve the number, force the unit (B) uppercase: 27b -> 27B.
        to_uppercase(token)
    } else {
        pretty_family(token)
    }
}

/// Pretty-format a raw model name such as `qwen-27B` -> `Qwen-27B`.
pub fn pretty_model(raw: &str) -> (r: String)
    ensures
        r@ == pretty_model_of(raw@),
{
    let s = chars_of(raw);
    let parts = split_on(&s, CharSet::One('-'));
    let mut trimmed: Vec<Vec<char>> = Vec::new();
    let mut i: usize = 0;
    while i < parts.len()
        invariant
            i <= parts.len(),
            views(trimmed@) == trimmed_parts(views(parts@).take(i as int)),
        decreases parts.len() - i,
    {
        let t = trim_ws(parts[i].as_slice());
        let ghost before = trimmed@;
        trimmed.push(t);
        proof {
            lemma_views_push(before, t);
            assert(views(parts@)[i as int] == parts@[i as int]@);
        }
        i = i + 1;
        assert(views(trimmed@) =~= trimmed_parts(views(parts@).take(i as int)));
    }
    assert(views(parts@).take(parts.len() as int) =~= views(parts@));
    let kept = keep_nonempty(&trimmed);
    let mut pretty: Vec<Vec<char>> = Vec::new();
    let mut j: usize = 0;
    while j < kept.len()
        invariant
            j <= kept.len(),
            views(pretty@) == pretty_tokens(views(kept@).take(j as int)),
        decreases kept.len() - j,
    {
        let p = pretty_token(kept[j].as_slice());
        let ghost before = pretty@;
        pretty.push(p);
        proof {
            lemma_views_push(before, p);
            assert(views(kept@)[j as int] == kept@[j as int]@);
        }
        j = j + 1;
        assert(views(pretty@) =~= pretty_tokens(views(kept@).take(j as int)));
    }
    assert(views(kept@).take(kept.len() as int) =~= views(kept@));
    let dash: Vec<char> = vec!['-'];
    assert(dash@ =~= seq!['-']);
    let joined = join_with(&pretty, &dash);
    string_of(&joined)
}

fn title_case(s: &[char]) -> (r: Vec<char>)
    ensures
        r@ == title_case_of(s@),
{
    let parts = split_on(s, CharSet::WordSeparators);
    let kept = keep_nonempty(&parts);
    let mut out: Vec<Vec<char>> = Vec::new();
    let mut j: usize = 0;
    while j < kept.len()
        invariant
            j <= kept.len(),
            views(out@) == title_words(views(kept@).take(j as int)),
        decreases kept.len() - j,
    {
        let w = kept[j].as_slice();
        let upper = to_uppercase(w);
        let word = if acronym(&upper) {
            upper
        } else {
            let lower = to_lowercase(w);
            capitalize(&lower)
        };
        let ghost before = out@;
        out.push(word);
        proof {
            lemma_views_push(before, word);
            assert(views(kept@)[j as int] == kept@[j as int]@);
        }
        j = j + 1;
        assert(views(out@) =~= title_words(views(kept@).take(j as int)));
    }
    assert(views(kept@).take(kept.len() as int) =~= views(kept@));
    let space: Vec<char> = vec![' '];
    assert(space@ =~= seq![' ']);
    join_with(&out, &space)
}

fn any_alphabetic(s: &[char]) -> (r: bool)
    ensures
        r == has_alphabetic(s@),
{
    let mut i: usize = 0;
    while i < s.len()
        invariant
            i <= s.len(),
            forall|k: int| 0 <= k < i ==> !unicode_alphabetic(#[trigger] s@[k]),
        decreases s.len() - i,
    {
        if is_alphabetic(s[i]) {
            return true;
        }
        i = i + 1;
    }
    false
}

fn any_lowercase(s: &[char]) -> (r: bool)
    ensures
        r == has_lowercase(s@),
{
    let mut i: usize = 0;
    while i < s.len()
        invariant
            i <= s.len(),
            forall|k: int| 0 <= k < i ==> !unicode_lowercase_char(#[trigger] s@[k]),
        decreases s.len() - i,
    {
        if is_lowercase(s[i]) {
            return true;
        }
        i = i + 1;
    }
    false
}

/// Pretty-format a raw feature name. Acronyms stay uppercase, everything else is
/// title-cased unless it is already uppercase in the source.
pub fn pretty_feature(raw: &str) -> (r: String)
    ensures
        r@ == pretty_feature_of(raw@),
{
    let s = chars_of(raw);
    let trimmed = trim_ws(&s);
    let upper = to_uppercase(&trimmed);
    if acronym(&upper) {
        return string_of(&upper);
    }
    // Already an uppercase acronym in the source (e.g. "VLM").
    if any_alphabetic(&trimmed) && !any_lowercase(&trimmed) {
        return string_of(&trimmed);
    }
    string_of(&title_case(&trimmed))
}

/// Build the display alias: `{PrettyModel} {PrettyFeature}`.
pub fn build_alias(pretty_model: &str, pretty_feature: &str) -> (r: String)
    ensures
        r@ == pretty_model@ + seq![' '] + pretty_feature@,
{
    let mut m = chars_of(pretty_model);
    m.push(' ');
    let mut f = chars_of(pretty_feature);
    m.append(&mut f);
    string_of(&m)
}

fn collapse(s: &[char]) -> (r: Vec<char>)
    ensures
        r@ == collapse_separators(s@),
{
    let mut out: Vec<char> = Vec::new();
    let mut prev_sep = false;
    let mut i: usize = 0;
    while i < s.len()
        invariant
            i <= s.len(),
            out@ == collapse_separators(s@.take(i as int)),
            prev_sep == (out@.len() > 0 && out@.last() == '-'),
        decreases s.len() - i,
    {
        let c = s[i];
        assert(s@.take(i + 1).drop_last() =~= s@.take(i as int));
        assert(s@.take(i + 1).last() == c);
        if is_alphanumeric(c) {
            assert(is_ascii_char('-'));
            out.push(c);
            prev_sep = false;
        } else if !prev_sep {
            out.push('-');
            prev_sep = true;
        }
        i = i + 1;
    }
    assert(s@.take(s.len() as int) =~= s@);
    out
}

fn id_part(raw: &[char]) -> (r: Vec<char>)
    ensures
        r@ == id_part_of(raw@),
{
    let t = trim_ws(raw);
    let l = to_lowercase(&t);
    let c = collapse(&l);
    trim_with(&c, CharSet::One('-'))
}

/// Lowercase, sanitized internal id component (spaces/dashes collapsed).
pub fn sanitize_id_part(raw: &str) -> (r: String)
    ensures
        r@ == id_part_of(raw@),
{
    let s = chars_of(raw);
    string_of(&id_part(&s))
}

/// Build a stable internal id from raw model + feature: `qwen-27b__mtp`.
pub fn build_id(raw_model: &str, raw_feature: &str) -> (r: String)
    ensures
        r@ == id_of(raw_model@, raw_feature@),
{
    let m = chars_of(raw_model);
    let f = chars_of(raw_feature);
    let mut out = id_part(&m);
    out.push('_');
    out.push('_');
    let mut tail = id_part(&f);
    out.append(&mut tail);
    assert(out@ =~= id_of(raw_model@, raw_feature@));
    string_of(&out)
}

fn spaces_for_separators(s: &[char]) -> (r: Vec<char>)
    ensures
        r@ == spaced(s@),
{
    let mut r: Vec<char> = Vec::new();
    let mut i: usize = 0;
    while i < s.len()
        invariant
            i <= s.len(),
            r@ == spaced(s@.take(i as int)),
        decreases s.len() - i,
    {
        let c = s[i];
        r.push(if c == '-' || c == '_' { ' ' } else { c });
        i = i + 1;
        assert(r@ =~= spaced(s@.take(i as int)));
    }
    assert(s@.take(s.len() as int) =~= s@);
    r
}

pub fn normalize_chars(s: &[char]) -> (r: Vec<char>)
    ensures
        r@ == normalized_alias(s@),
{
    let lowered = to_lowercase(s);
    let spaced = spaces_for_separators(&lowered);
    let ws = split_words(&spaced);
    let space: Vec<char> = vec![' '];
    assert(space@ =~= seq![' ']);
    join_with(&ws, &space)
}

/// Normalize an alias for case-insensitive, separator-flexible matching.
/// "Qwen-27B MTP", "qwen 27b mtp" and "Qwen 27B MTP" all normalize equally.
pub fn normalize_alias(s: &str) -> (r: String)
    ensures
        r@ == normalized_alias(s@),
{
    let c = chars_of(s);
    string_of(&normalize_chars(&c))
}


// ---------------------------------------------------------------------------
// Laws
// ---------------------------------------------------------------------------

proof fn lemma_ascii_lower_seq_ascii(s: Seq<char>)
    requires
        all_ascii(s),
    ensures
        all_ascii(ascii_lower_seq(s)),
        ascii_lower_seq(ascii_lower_seq(s)) == ascii_lower_seq(s),
{
    assert forall|i: int| 0 <= i < ascii_lower_seq(s).len() implies is_ascii_char(
        #[trigger] ascii_lower_seq(s)[i],
    ) by {
        assert(is_ascii_char(s[i]));
    }
    assert(ascii_lower_seq(ascii_lower_seq(s)) =~= ascii_lower_seq(s));
}

/// Alias matching is case-insensitive: an ASCII alias normalizes exactly as
/// its lowercase form does.
pub proof fn law_alias_match_ignores_case(s: Seq<char>)
    requires
        all_ascii(s),
    ensures
        normalized_alias(s) == normalized_alias(ascii_lower_seq(s)),
{
    lemma_ascii_lower_seq_ascii(s);
}

/// Alias matching is separator-flexible: in an ASCII alias, dashes and
/// underscores match spaces.
pub proof fn law_alias_match_ignores_separators(s: Seq<char>)
    requires
        all_ascii(s),
    ensures
        normalized_alias(s) == normalized_alias(spaced(s)),
{
    assert forall|i: int| 0 <= i < spaced(s).len() implies is_ascii_char(
        #[trigger] spaced(s)[i],
    ) by {
        assert(is_ascii_char(s[i]));
    }
    assert(spaced(ascii_lower_seq(spaced(s))) =~= spaced(ascii_lower_seq(s)));
}

/// Every character is `'-'` or alphanumeric and no two dashes are adjacent.
pub open spec fn dash_separated(p: Seq<char>) -> bool {
    &&& forall|i: int| 0 <= i < p.len() ==> #[trigger] p[i] == '-' || unicode_alphanumeric(p[i])
    &&& forall|i: int| 0 <= i < p.len() - 1 ==> !(#[trigger] p[i] == '-' && p[i + 1] == '-')
}

proof fn lemma_collapse_dash_separated(s: Seq<char>)
    ensures
        dash_separated(collapse_separators(s)),
    decreases s.len(),
{
    if s.len() > 0 {
        lemma_collapse_dash_separated(s.drop_last());
        let p = collapse_separators(s.drop_last());
        let q = collapse_separators(s);
        assert(unicode_alphanumeric(s.last()) ==> s.last() != '-');
        assert forall|i: int| 0 <= i < q.len() - 1 implies !(#[trigger] q[i] == '-' && q[i + 1]
            == '-') by {
            if i < p.len() - 1 {
                assert(q[i] == p[i] && q[i + 1] == p[i + 1]);
            }
        }
    }
}

/// An id component never starts or ends with a dash, never holds two dashes
/// in a row, and holds only alphanumeric characters and dashes.
pub proof fn law_id_part_shape(raw: Seq<char>)
    ensures
        dash_separated(id_part_of(raw)),
        id_part_of(raw).len() > 0 ==> id_part_of(raw)[0] != '-' && id_part_of(raw).last()
            != '-',
{
    let c = collapse_separators(unicode_lowercase(trim(raw, CharSet::Whitespace)));
    let k = CharSet::One('-');
    lemma_collapse_dash_separated(unicode_lowercase(trim(raw, CharSet::Whitespace)));
    lemma_trim_start_shape(c, k);
    let ts = trim_start(c, k);
    let a = choose|a: int| 0 <= a <= c.len() && #[trigger] c.skip(a) == ts;
    lemma_trim_end_shape(ts, k);
    let t = trim_end(ts, k);
    let b = choose|b: int| 0 <= b <= ts.len() && #[trigger] ts.take(b) == t;
    assert(t =~= c.subrange(a, a + b));
    assert forall|i: int| 0 <= i < t.len() implies #[trigger] t[i] == '-' || unicode_alphanumeric(
        t[i],
    ) by {
        assert(t[i] == c[a + i]);
    }
    assert forall|i: int| 0 <= i < t.len() - 1 implies !(#[trigger] t[i] == '-' && t[i + 1]
        == '-') by {
        assert(t[i] == c[a + i] && t[i + 1] == c[a + i + 1]);
    }
    if t.len() > 0 {
        assert(ts[0] == t[0]);
    }
}

/// The alphanumeric characters (`char::is_alphanumeric`).
pub open spec fn alphanumeric() -> spec_fn(char) -> bool {
    |c: char| unicode_alphanumeric(c)
}

proof fn lemma_collapse_keeps_alphanumerics(s: Seq<char>)
    ensures
        collapse_separators(s).filter(crate::text::outside(CharSet::One('-'))) == s.filter(
            alphanumeric(),
        ),
    decreases s.len(),
{
    let f = crate::text::outside(CharSet::One('-'));
    if s.len() == 0 {
        assert(s.filter(alphanumeric()) =~= Seq::<char>::empty() && s.filter(f) =~= Seq::<char>::empty())
            by {
            reveal(Seq::filter);
        }
    } else {
        let init = s.drop_last();
        let c = s.last();
        lemma_collapse_keeps_alphanumerics(init);
        let p = collapse_separators(init);
        assert(s =~= init.push(c));
        init.lemma_filter_push(c, alphanumeric());
        assert(!unicode_alphanumeric('-'));
        p.lemma_filter_push(c, f);
        p.lemma_filter_push('-', f);
    }
}

proof fn lemma_trim_start_dashes(s: Seq<char>)
    ensures
        trim_start(s, CharSet::One('-')).filter(crate::text::outside(CharSet::One('-'))) == s.filter(
            crate::text::outside(CharSet::One('-')),
        ),
    decreases s.len(),
{
    if s.len() > 0 && s[0] == '-' {
        lemma_trim_start_dashes(s.drop_first());
        assert(s =~= seq![s[0]] + s.drop_first());
        s.drop_first().lemma_filter_prepend(s[0], crate::text::outside(CharSet::One('-')));
        assert(Seq::<char>::empty() + s.drop_first().filter(crate::text::outside(CharSet::One('-')))
            =~= s.drop_first().filter(crate::text::outside(CharSet::One('-'))));
    }
}

proof fn lemma_trim_end_dashes(s: Seq<char>)
    ensures
        trim_end(s, CharSet::One('-')).filter(crate::text::outside(CharSet::One('-'))) == s.filter(
            crate::text::outside(CharSet::One('-')),
        ),
    decreases s.len(),
{
    if s.len() > 0 && s.last() == '-' {
        lemma_trim_end_dashes(s.drop_last());
        assert(s =~= s.drop_last().push(s.last()));
        s.drop_last().lemma_filter_push(s.last(), crate::text::outside(CharSet::One('-')));
    }
}

/// An id component keeps the letters and digits of its source: leaving the
/// dashes out, it is the lowercased, trimmed input with only its
/// alphanumeric characters, in order.
pub proof fn law_id_part_keeps_alphanumerics(raw: Seq<char>)
    ensures
        id_part_of(raw).filter(crate::text::outside(CharSet::One('-'))) == unicode_lowercase(
            trim(raw, CharSet::Whitespace),
        ).filter(alphanumeric()),
{
    let lowered = unicode_lowercase(trim(raw, CharSet::Whitespace));
    let c = collapse_separators(lowered);
    lemma_collapse_keeps_alphanumerics(lowered);
    lemma_trim_start_dashes(c);
    lemma_trim_end_dashes(trim_start(c, CharSet::One('-')));
}

/// Ids are unambiguous: two ids are equal only when their model parts and
/// their feature parts are.
pub proof fn law_id_determines_parts(m1: Seq<char>, f1: Seq<char>, m2: Seq<char>, f2: Seq<char>)
    requires
        id_of(m1, f1) == id_of(m2, f2),
    ensures
        id_part_of(m1) == id_part_of(m2),
        id_part_of(f1) == id_part_of(f2),
{
    law_id_part_shape(m1);
    law_id_part_shape(m2);
    let p1 = id_part_of(m1);
    let p2 = id_part_of(m2);
    let id = id_of(m1, f1);
    assert(is_ascii_char('_'));
    if p1.len() < p2.len() {
        assert(id[p1.len() as int] == '_');
        assert(id[p1.len() as int] == p2[p1.len() as int]);
    } else if p2.len() < p1.len() {
        assert(id[p2.len() as int] == '_');
        assert(id[p2.len() as int] == p1[p2.len() as int]);
    }
    assert(p1 =~= id.take(p1.len() as int));
    assert(p2 =~= id.take(p2.len() as int));
    assert(id_part_of(f1) =~= id.skip(p1.len() as int + 2));
    assert(id_part_of(f2) =~= id.skip(p2.len() as int + 2));
}

/// A character of a normalized alias between its single-space separators.
pub open spec fn alias_word_char(c: char) -> bool {
    c != '-' && c != '_' && !crate::text::is_ws(c)
}

/// The words of a normalized alias: nonempty, free of whitespace and of
/// `-` and `_`.
proof fn lemma_alias_words(x: Seq<char>, q: spec_fn(char) -> bool)
    requires
        forall|m: int| 0 <= m < x.len() ==> q(#[trigger] x[m]) || crate::text::is_ws(x[m]),
        forall|c: char| q(c) ==> alias_word_char(c),
    ensures
        ({
            let w = crate::text::words(x);
            &&& forall|i: int| 0 <= i < w.len() ==> (#[trigger] w[i]).len() > 0
            &&& forall|i: int, j: int| 0 <= i < w.len() && 0 <= j < w[i].len() ==> q(#[trigger] w[i][j])
                && w[i][j] != ' '
        }),
{
    let k = CharSet::Whitespace;
    crate::text::lemma_split_by_chars(x, k, q);
    let parts = split_by(x, k);
    crate::text::lemma_nonempty_pieces(parts);
    let w = nonempty(parts);
    assert forall|i: int, j: int| 0 <= i < w.len() && 0 <= j < w[i].len() implies q(#[trigger] w[i][j])
        && w[i][j] != ' ' by {
        let v = choose|v: int| 0 <= v < parts.len() && #[trigger] w[i] == parts[v];
        assert(w[i][j] == parts[v][j]);
        assert(crate::text::is_ws(' '));
    }
}

/// A normalized alias is words separated by single spaces: no `-`, `_` or
/// other whitespace, no space at either end and never two in a row.
pub proof fn law_normalized_alias_shape(s: Seq<char>)
    ensures
        ({
            let r = normalized_alias(s);
            &&& forall|m: int| 0 <= m < r.len() ==> #[trigger] r[m] == ' ' || alias_word_char(r[m])
            &&& r.len() > 0 ==> r[0] != ' ' && r.last() != ' '
            &&& forall|m: int| 0 <= m < r.len() - 1 ==> !(#[trigger] r[m] == ' ' && r[m + 1] == ' ')
        }),
{
    let x = spaced(unicode_lowercase(s));
    let q = |c: char| alias_word_char(c);
    assert forall|m: int| 0 <= m < x.len() implies q(#[trigger] x[m]) || crate::text::is_ws(x[m]) by {}
    lemma_alias_words(x, q);
    crate::text::lemma_join_single_separator(crate::text::words(x), ' ', q);
}

/// A normalized ASCII alias holds no uppercase letter.
pub proof fn law_normalized_alias_lowercase(s: Seq<char>)
    requires
        all_ascii(s),
    ensures
        forall|m: int|
            0 <= m < normalized_alias(s).len() ==> !crate::text::is_ascii_upper(
                #[trigger] normalized_alias(s)[m],
            ),
{
    let lower = ascii_lower_seq(s);
    let x = spaced(lower);
    let q = |c: char| alias_word_char(c) && !crate::text::is_ascii_upper(c);
    assert forall|m: int| 0 <= m < x.len() implies q(#[trigger] x[m]) || crate::text::is_ws(x[m]) by {
        assert(is_ascii_char(s[m]));
        assert(lower[m] == crate::text::ascii_lower(s[m]));
    }
    lemma_alias_words(x, q);
    let w = crate::text::words(x);
    crate::text::lemma_join_single_separator(w, ' ', q);
    let r = normalized_alias(s);
    assert(r == join(w, seq![' ']));
    assert forall|m: int| 0 <= m < r.len() implies !crate::text::is_ascii_upper(#[trigger] r[m]) by {
        assert(r[m] == ' ' || q(r[m]));
    }
}

/// Normalizing is idempotent on ASCII aliases: a normalized alias
/// normalizes to itself.
pub proof fn law_normalize_alias_idempotent(s: Seq<char>)
    requires
        all_ascii(s),
    ensures
        normalized_alias(normalized_alias(s)) == normalized_alias(s),
{
    let lower = ascii_lower_seq(s);
    let x = spaced(lower);
    let q = |c: char| alias_word_char(c) && is_ascii_char(c) && !crate::text::is_ascii_upper(c);
    assert forall|m: int| 0 <= m < x.len() implies q(#[trigger] x[m]) || crate::text::is_ws(x[m]) by {
        assert(is_ascii_char(s[m]));
        assert(lower[m] == crate::text::ascii_lower(s[m]));
    }
    lemma_alias_words(x, q);
    let w = crate::text::words(x);
    let r = normalized_alias(s);
    crate::text::lemma_join_single_separator(w, ' ', q);
    assert(r == join(w, seq![' ']));
    assert forall|m: int| 0 <= m < r.len() implies is_ascii_char(#[trigger] r[m]) by {
        assert(r[m] == ' ' || q(r[m]));
    }
    assert(ascii_lower_seq(r) =~= r) by {
        assert forall|m: int| 0 <= m < r.len() implies #[trigger] ascii_lower_seq(r)[m] == r[m] by {
            assert(r[m] == ' ' || q(r[m]));
        }
    }
    assert(spaced(r) =~= r) by {
        assert forall|m: int| 0 <= m < r.len() implies #[trigger] spaced(r)[m] == r[m] by {
            assert(r[m] == ' ' || q(r[m]));
        }
    }
    assert(unicode_lowercase(r) == r);
    if w.len() == 0 {
        assert(r =~= Seq::<char>::empty());
        let one = seq![Seq::<char>::empty()];
        assert(split_by(r, CharSet::Whitespace) =~= one);
        assert(one.drop_last() =~= Seq::<Seq<char>>::empty());
        assert(nonempty(one.drop_last()) =~= Seq::<Seq<char>>::empty());
        assert(nonempty(one) =~= Seq::<Seq<char>>::empty());
    } else {
        assert forall|i: int, j: int| 0 <= i < w.len() && 0 <= j < w[i].len() implies !crate::text::in_set(
            CharSet::Whitespace,
            #[trigger] w[i][j],
        ) by {
            assert(q(w[i][j]));
        }
        assert(crate::text::is_ws(' '));
        crate::text::lemma_split_join(w, ' ', CharSet::Whitespace);
        crate::text::lemma_nonempty_all(w);
    }
}

} // verus!
