//! Reading generation throughput out of what llama.cpp reports: its
//! Prometheus `/metrics` page and the timing lines of its log. The library
//! locates the numbers in the text; turning them into floating-point values
//! is left to the caller.
use crate::text::{
    chars_of, contains_chars, contains_seq, find, find_in, is_ascii_digit, lines, split_lines,
    split_words, string_of, trim, trim_start, trim_start_with, trim_with, views, words, CharSet,
};
use vstd::prelude::*;

verus! {

/// The run of ASCII digits and dots at the start of `t`.
pub open spec fn number_prefix(t: Seq<char>) -> Seq<char>
    decreases t.len(),
{
    if t.len() > 0 && (is_ascii_digit(t[0]) || t[0] == '.') {
        seq![t[0]] + number_prefix(t.drop_first())
    } else {
        Seq::empty()
    }
}

/// The numeral that starts `s` once leading whitespace is skipped: the run
/// of ASCII digits and dots there (possibly empty).
pub open spec fn leading_number(s: Seq<char>) -> Seq<char> {
    number_prefix(trim_start(s, CharSet::Whitespace))
}

fn number_prefix_of(t: &[char]) -> (r: Vec<char>)
    ensures
        r@ == number_prefix(t@),
{
    let mut end: usize = 0;
    assert(t@.skip(0) =~= t@);
    assert(t@.take(0) + t@ =~= t@);
    while end < t.len() && (('0' <= t[end] && t[end] <= '9') || t[end] == '.')
        invariant
            end <= t.len(),
            number_prefix(t@) == t@.take(end as int) + number_prefix(t@.skip(end as int)),
        decreases t.len() - end,
    {
        proof {
            let rest = t@.skip(end as int);
            assert(rest.drop_first() =~= t@.skip(end + 1));
            assert(t@.take(end + 1) =~= t@.take(end as int) + seq![rest[0]]);
        }
        end = end + 1;
    }
    let r = crate::text::copy_range(t, 0, end);
    assert(t@.subrange(0, end as int) =~= t@.take(end as int));
    assert(number_prefix(t@.skip(end as int)) =~= Seq::<char>::empty());
    assert(t@.take(end as int) + Seq::<char>::empty() =~= t@.take(end as int));
    r
}

/// The text of the numeral at the start of `s` (leading whitespace skipped).
pub fn leading_number_text(s: &str) -> (r: String)
    ensures
        r@ == leading_number(s@),
{
    let c = chars_of(s);
    let t = trim_start_with(&c, CharSet::Whitespace);
    string_of(&number_prefix_of(&t))
}

// ---------------------------------------------------------------------------
// Log lines
// ---------------------------------------------------------------------------

pub open spec fn eval_marker() -> Seq<char> {
    seq!['e', 'v', 'a', 'l', ' ', 't', 'i', 'm', 'e', ' ', '=']
}

pub open spec fn prompt_eval_marker() -> Seq<char> {
    seq!['p', 'r', 'o', 'm', 'p', 't', ' ', 'e', 'v', 'a', 'l', ' ', 't', 'i', 'm', 'e']
}

/// The milliseconds and token count texts of a generation timing line,
/// `... eval time = <ms> ms / <n> tokens ...`. Prompt processing lines
/// (`prompt eval time`) and lines without the marker or a `/` after it give
/// nothing.
pub open spec fn gen_eval_fields(line: Seq<char>) -> Option<(Seq<char>, Seq<char>)> {
    if contains_seq(line, prompt_eval_marker()) {
        None
    } else {
        match find_in(line, eval_marker()) {
            None => None,
            Some(idx) => {
                let rest = line.skip(idx + eval_marker().len());
                match find_in(rest, seq!['/']) {
                    None => None,
                    Some(slash) => Some((leading_number(rest), leading_number(rest.skip(slash + 1)))),
                }
            },
        }
    }
}

pub fn gen_eval_texts(line: &str) -> (r: Option<(String, String)>)
    ensures
        match r {
            Some((ms, tokens)) => gen_eval_fields(line@) == Some((ms@, tokens@)),
            None => gen_eval_fields(line@) is None,
        },
{
    let l = chars_of(line);
    let prompt = vec!['p', 'r', 'o', 'm', 'p', 't', ' ', 'e', 'v', 'a', 'l', ' ', 't', 'i', 'm', 'e'];
    assert(prompt@ =~= prompt_eval_marker());
    if contains_chars(&l, &prompt) {
        return None;
    }
    let marker = vec!['e', 'v', 'a', 'l', ' ', 't', 'i', 'm', 'e', ' ', '='];
    assert(marker@ =~= eval_marker());
    let idx = match find(&l, &marker) {
        Some(i) => i,
        None => return None,
    };
    assert(idx + marker.len() <= l.len());
    let rest = crate::text::copy_range(&l, idx + marker.len(), l.len());
    assert(rest@ =~= l@.skip(idx + eval_marker().len()));
    let slash = vec!['/'];
    assert(slash@ =~= seq!['/']);
    let s = match find(&rest, &slash) {
        Some(k) => k,
        None => return None,
    };
    assert(s + 1 <= rest.len());
    let after = crate::text::copy_range(&rest, s + 1, rest.len());
    assert(after@ =~= rest@.skip(s + 1));
    let ms = number_prefix_of(&trim_start_with(&rest, CharSet::Whitespace));
    let tokens = number_prefix_of(&trim_start_with(&after, CharSet::Whitespace));
    Some((string_of(&ms), string_of(&tokens)))
}

// ---------------------------------------------------------------------------
// Prometheus metrics
// ---------------------------------------------------------------------------

/// The value text of the first sample line of `name`: lines are trimmed,
/// comment lines (`#`) skipped; the first line whose first word is `name`
/// decides, giving its second word, or nothing when it has none.
pub open spec fn metric_in(ls: Seq<Seq<char>>, name: Seq<char>) -> Option<Seq<char>>
    decreases ls.len(),
{
    if ls.len() == 0 {
        None
    } else {
        let t = trim(ls[0], CharSet::Whitespace);
        let w = words(t);
        if t.len() > 0 && t[0] == '#' {
            metric_in(ls.drop_first(), name)
        } else if w.len() > 0 && w[0] == name {
            if w.len() > 1 {
                Some(w[1])
            } else {
                None
            }
        } else {
            metric_in(ls.drop_first(), name)
        }
    }
}

pub open spec fn metric_text(body: Seq<char>, name: Seq<char>) -> Option<Seq<char>> {
    metric_in(lines(body), name)
}

pub fn metric_value_text(body: &str, name: &str) -> (r: Option<String>)
    ensures
        match r {
            Some(v) => metric_text(body@, name@) == Some(v@),
            None => metric_text(body@, name@) is None,
        },
{
    let b = chars_of(body);
    let n = chars_of(name);
    let ls = split_lines(&b);
    let ghost all = views(ls@);
    let mut i: usize = 0;
    assert(all.skip(0) =~= all);
    while i < ls.len()
        invariant
            i <= ls.len(),
            all == views(ls@),
            all == lines(body@),
            n@ == name@,
            metric_in(all, name@) == metric_in(all.skip(i as int), name@),
        decreases ls.len() - i,
    {
        let ghost rest = all.skip(i as int);
        assert(rest[0] == ls@[i as int]@);
        assert(rest.drop_first() =~= all.skip(i + 1));
        let t = trim_with(ls[i].as_slice(), CharSet::Whitespace);
        if t.len() > 0 && t[0] == '#' {
            i = i + 1;
        } else {
            let w = split_words(&t);
            if w.len() > 0 && crate::text::same_chars(w[0].as_slice(), n.as_slice()) {
                assert(views(w@)[0] == w@[0]@);
                if w.len() > 1 {
                    assert(views(w@)[1] == w@[1]@);
                    return Some(string_of(w[1].as_slice()));
                }
                return None;
            }
            proof {
                if w@.len() > 0 {
                    assert(views(w@)[0] == w@[0]@);
                }
            }
            i = i + 1;
        }
    }
    None
}

} // verus!
