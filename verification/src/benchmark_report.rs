//! The offline benchmark report: a self-contained HTML page that embeds the
//! run's records as JSON inside a script element, and the counts written
//! beside it.
use crate::text::{chars_of, matches_at, occurs_at, starts_with, str_eq, string_of};
use vstd::prelude::*;

verus! {

// ---------------------------------------------------------------------------
// Embedding JSON in a script element
// ---------------------------------------------------------------------------

/// The JSON escape that stands for one character of the embedded data:
/// `<`, `>` and `&` become `\u003c`, `\u003e` and `\u0026`; every other
/// character stays as it is.
pub open spec fn escaped_char(c: char) -> Seq<char> {
    if c == '<' {
        seq!['\\', 'u', '0', '0', '3', 'c']
    } else if c == '>' {
        seq!['\\', 'u', '0', '0', '3', 'e']
    } else if c == '&' {
        seq!['\\', 'u', '0', '0', '2', '6']
    } else {
        seq![c]
    }
}

pub open spec fn escape_data(s: Seq<char>) -> Seq<char>
    decreases s.len(),
{
    if s.len() == 0 {
        Seq::empty()
    } else {
        escape_data(s.drop_last()) + escaped_char(s.last())
    }
}

pub open spec fn is_markup(c: char) -> bool {
    c == '<' || c == '>' || c == '&'
}

/// Escape serialized records so that they can stand inside a `<script>`
/// element: no `<`, `>` or `&` is left, so the data can neither close the
/// element (`</script`) nor open a comment or an entity. JSON reads each
/// escape back as the character it replaced.
pub fn escape_report_data(data: &str) -> (r: String)
    ensures
        r@ == escape_data(data@),
{
    let s = chars_of(data);
    let mut out: Vec<char> = Vec::new();
    let mut i: usize = 0;
    while i < s.len()
        invariant
            i <= s.len(),
            s@ == data@,
            out@ == escape_data(s@.take(i as int)),
        decreases s.len() - i,
    {
        assert(s@.take(i + 1).drop_last() =~= s@.take(i as int));
        let c = s[i];
        let ghost before = out@;
        if c == '<' {
            out.push('\\');
            out.push('u');
            out.push('0');
            out.push('0');
            out.push('3');
            out.push('c');
        } else if c == '>' {
            out.push('\\');
            out.push('u');
            out.push('0');
            out.push('0');
            out.push('3');
            out.push('e');
        } else if c == '&' {
            out.push('\\');
            out.push('u');
            out.push('0');
            out.push('0');
            out.push('2');
            out.push('6');
        } else {
            out.push(c);
        }
        assert(out@ =~= before + escaped_char(c));
        i = i + 1;
    }
    assert(s@.take(s.len() as int) =~= s@);
    string_of(&out)
}

/// Escaped report data holds no `<`, `>` or `&`, whatever the records say.
pub proof fn law_report_data_has_no_markup(data: Seq<char>)
    ensures
        forall|i: int| 0 <= i < escape_data(data).len() ==> !is_markup(#[trigger] escape_data(data)[i]),
    decreases data.len(),
{
    if data.len() > 0 {
        law_report_data_has_no_markup(data.drop_last());
        let prev = escape_data(data.drop_last());
        let tail = escaped_char(data.last());
        assert forall|i: int| 0 <= i < escape_data(data).len() implies !is_markup(
            #[trigger] escape_data(data)[i],
        ) by {
            if i >= prev.len() {
                assert(escape_data(data)[i] == tail[i - prev.len()]);
            } else {
                assert(escape_data(data)[i] == prev[i]);
            }
        }
    }
}

// ---------------------------------------------------------------------------
// Filling the page template
// ---------------------------------------------------------------------------

/// `str::replace` with an empty pattern: `r` before every character and
/// at the end.
pub open spec fn interleaved(s: Seq<char>, r: Seq<char>) -> Seq<char>
    decreases s.len(),
{
    if s.len() == 0 {
        r
    } else {
        r + seq![s[0]] + interleaved(s.skip(1), r)
    }
}

/// `str::replace`: every occurrence of `p`, found from the left without
/// overlapping, replaced by `r` (an empty `p` occurs before every character
/// and at the end).
pub open spec fn replaced(s: Seq<char>, p: Seq<char>, r: Seq<char>) -> Seq<char>
    decreases s.len(),
{
    if p.len() == 0 {
        interleaved(s, r)
    } else if s.len() == 0 {
        s
    } else if starts_with(s, p) {
        r + replaced(s.skip(p.len() as int), p, r)
    } else {
        seq![s[0]] + replaced(s.skip(1), p, r)
    }
}

fn interleave(s: &[char], w: &[char]) -> (r: Vec<char>)
    ensures
        r@ == interleaved(s@, w@),
{
    let mut out: Vec<char> = Vec::new();
    let mut i: usize = 0;
    assert(s@.skip(0) =~= s@);
    while i < s.len()
        invariant
            i <= s.len(),
            interleaved(s@, w@) == out@ + interleaved(s@.skip(i as int), w@),
        decreases s.len() - i,
    {
        let ghost rest = s@.skip(i as int);
        assert(rest.skip(1) =~= s@.skip(i + 1));
        let ghost before = out@;
        out.extend_from_slice(w);
        out.push(s[i]);
        assert(out@ =~= before + w@ + seq![rest[0]]);
        assert(before + (w@ + seq![rest[0]] + interleaved(rest.skip(1), w@)) =~= out@ + interleaved(
            s@.skip(i + 1),
            w@,
        ));
        i = i + 1;
    }
    let ghost before = out@;
    out.extend_from_slice(w);
    assert(out@ =~= before + w@);
    out
}

/// Replace every occurrence of the pattern, left to right (`str::replace`).
pub fn replace_all(text: &str, pattern: &str, with: &str) -> (r: String)
    ensures
        r@ == replaced(text@, pattern@, with@),
{
    let s = chars_of(text);
    let p = chars_of(pattern);
    let w = chars_of(with);
    if p.len() == 0 {
        return string_of(&interleave(&s, &w));
    }
    let mut out: Vec<char> = Vec::new();
    let mut i: usize = 0;
    assert(s@.skip(0) =~= s@);
    assert(out@ + replaced(s@, p@, w@) =~= replaced(s@, p@, w@));
    while i < s.len()
        invariant
            i <= s.len(),
            s@ == text@,
            p@ == pattern@,
            w@ == with@,
            p@.len() > 0,
            replaced(s@, p@, w@) == out@ + replaced(s@.skip(i as int), p@, w@),
        decreases s.len() - i,
    {
        let ghost rest = s@.skip(i as int);
        if matches_at(&s, &p, i) {
            assert(rest.take(p@.len() as int) =~= s@.subrange(i as int, i + p@.len()));
            assert(rest.skip(p@.len() as int) =~= s@.skip(i + p@.len()));
            let mut copy = w.clone();
            let ghost before = out@;
            out.append(&mut copy);
            assert(out@ == before + w@);
            assert(replaced(rest, p@, w@) == w@ + replaced(s@.skip(i + p@.len()), p@, w@));
            assert(before + replaced(rest, p@, w@) =~= out@ + replaced(
                s@.skip(i + p@.len()),
                p@,
                w@,
            ));
            i = i + p.len();
        } else {
            proof {
                if starts_with(rest, p@) {
                    assert(rest.take(p@.len() as int) =~= s@.subrange(i as int, i + p@.len()));
                    assert(occurs_at(s@, p@, i as int));
                }
            }
            assert(rest.skip(1) =~= s@.skip(i + 1));
            assert(rest[0] == s@[i as int]);
            let ghost before = out@;
            out.push(s[i]);
            assert(before + replaced(rest, p@, w@) =~= out@ + replaced(s@.skip(i + 1), p@, w@));
            i = i + 1;
        }
    }
    assert(out@ + replaced(s@.skip(i as int), p@, w@) =~= out@);
    string_of(&out)
}

/// The marker in the page template where the records go.
pub open spec fn data_marker() -> Seq<char> {
    seq!['_', '_', 'R', 'E', 'P', 'O', 'R', 'T', '_', 'D', 'A', 'T', 'A', '_', '_']
}

/// The report page: the template with every `__REPORT_DATA__` marker
/// replaced by the escaped records.
pub fn report_page(template: &str, records_json: &str) -> (r: String)
    ensures
        r@ == replaced(template@, data_marker(), escape_data(records_json@)),
{
    let safe = escape_report_data(records_json);
    let marker = string_of(
        &vec!['_', '_', 'R', 'E', 'P', 'O', 'R', 'T', '_', 'D', 'A', 'T', 'A', '_', '_'],
    );
    assert(marker@ =~= data_marker());
    replace_all(template, marker.as_str(), safe.as_str())
}

// ---------------------------------------------------------------------------
// Summary counts
// ---------------------------------------------------------------------------

pub open spec fn count_kind(kinds: Seq<String>, kind: Seq<char>) -> nat
    decreases kinds.len(),
{
    if kinds.len() == 0 {
        0
    } else {
        count_kind(kinds.drop_last(), kind) + if kinds.last()@ == kind {
            1nat
        } else {
            0nat
        }
    }
}

proof fn lemma_count_kind_bound(kinds: Seq<String>, kind: Seq<char>)
    ensures
        count_kind(kinds, kind) <= kinds.len(),
    decreases kinds.len(),
{
    if kinds.len() > 0 {
        lemma_count_kind_bound(kinds.drop_last(), kind);
    }
}

/// How many records are of the given benchmark kind.
pub fn records_of_kind(kinds: &[String], kind: &str) -> (r: usize)
    ensures
        r == count_kind(kinds@, kind@),
{
    let mut n: usize = 0;
    let mut i: usize = 0;
    while i < kinds.len()
        invariant
            i <= kinds.len(),
            n == count_kind(kinds@.take(i as int), kind@),
        decreases kinds.len() - i,
    {
        assert(kinds@.take(i + 1).drop_last() =~= kinds@.take(i as int));
        proof {
            lemma_count_kind_bound(kinds@.take(i as int), kind@);
        }
        if str_eq(kinds[i].as_str(), kind) {
            n = n + 1;
        }
        i = i + 1;
    }
    assert(kinds@.take(kinds.len() as int) =~= kinds@);
    n
}

} // verus!
