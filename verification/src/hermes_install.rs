//! Installing the agent skill: the credentials it needs are kept in the
//! agent's `.env` file, one `KEY=value` line each.
use crate::text::{
    decimal, decimal_of, eq_ignore_ascii_case, equals_ignore_ascii_case, str_eq,
    chars_of, has_prefix, join, join_with, lines, split_lines, starts_with, string_of, trim_start,
    trim_start_with, views, CharSet,
};
use vstd::prelude::*;

verus! {

/// The line that sets `key` to `value`.
pub open spec fn assignment(key: Seq<char>, value: Seq<char>) -> Seq<char> {
    key + seq!['='] + value
}

/// A line sets `key` when, leading whitespace aside, it starts with `key=`.
pub open spec fn sets_key(line: Seq<char>, key: Seq<char>) -> bool {
    starts_with(trim_start(line, CharSet::Whitespace), key + seq!['='])
}

/// The lines with every assignment of `key` replaced by `key=value`.
pub open spec fn replaced_lines(ls: Seq<Seq<char>>, key: Seq<char>, value: Seq<char>) -> Seq<Seq<char>> {
    ls.map_values(
        |l: Seq<char>|
            if sets_key(l, key) {
                assignment(key, value)
            } else {
                l
            },
    )
}

/// The file with `key` set to `value`: lines that set the key are replaced,
/// or, when none does, the assignment is added as the last line; lines are
/// joined with `\n` and the file ends with one.
pub open spec fn upserted(contents: Seq<char>, key: Seq<char>, value: Seq<char>) -> Seq<char> {
    join(upserted_lines(contents, key, value), seq!['\n']) + seq!['\n']
}

/// The lines written back.
pub open spec fn upserted_lines(contents: Seq<char>, key: Seq<char>, value: Seq<char>) -> Seq<Seq<char>> {
    let ls = lines(contents);
    let replaced = replaced_lines(ls, key, value);
    if exists|i: int| 0 <= i < ls.len() && sets_key(#[trigger] ls[i], key) {
        replaced
    } else {
        replaced.push(assignment(key, value))
    }
}

/// Set `key` to `value` in the text of a `.env` file.
pub fn upsert_env_value(contents: &mut String, key: &str, value: &str)
    ensures
        final(contents)@ == upserted(old(contents)@, key@, value@),
{
    let ls = split_lines(&chars_of(contents.as_str()));
    let ghost lv = views(ls@);
    assert(lv == lines(old(contents)@));
    let mut prefix = chars_of(key);
    prefix.push('=');
    let mut replacement = chars_of(key);
    replacement.push('=');
    let mut v = chars_of(value);
    replacement.append(&mut v);
    assert(replacement@ =~= assignment(key@, value@));
    let mut found = false;
    let mut out: Vec<Vec<char>> = Vec::new();
    let mut i: usize = 0;
    while i < ls.len()
        invariant
            i <= ls@.len(),
            lv == views(ls@),
            prefix@ == key@ + seq!['='],
            replacement@ == assignment(key@, value@),
            views(out@) == replaced_lines(lv, key@, value@).take(i as int),
            found == exists|j: int| 0 <= j < i && sets_key(#[trigger] lv[j], key@),
        decreases ls@.len() - i,
    {
        let t = trim_start_with(ls[i].as_slice(), CharSet::Whitespace);
        assert(lv[i as int] == ls@[i as int]@);
        let line = if has_prefix(&t, &prefix) {
            found = true;
            crate::text::copy_range(&replacement, 0, replacement.len())
        } else {
            crate::text::copy_range(ls[i].as_slice(), 0, ls[i].len())
        };
        let ghost before = out@;
        out.push(line);
        proof {
            crate::text::lemma_views_push(before, line);
            assert(line@ =~= replaced_lines(lv, key@, value@)[i as int]);
        }
        i = i + 1;
        assert(replaced_lines(lv, key@, value@).take(i as int) =~= replaced_lines(lv, key@, value@).take(
            i - 1,
        ).push(line@));
    }
    assert(replaced_lines(lv, key@, value@).take(ls@.len() as int) =~= replaced_lines(lv, key@, value@));
    if !found {
        let ghost before = out@;
        let r = crate::text::copy_range(&replacement, 0, replacement.len());
        assert(r@ =~= replacement@);
        out.push(r);
        proof {
            crate::text::lemma_views_push(before, r);
        }
    }
    let nl: Vec<char> = vec!['\n'];
    assert(nl@ =~= seq!['\n']);
    let mut text = join_with(&out, &nl);
    let ghost replaced = replaced_lines(lv, key@, value@);
    let ghost all = if exists|j: int| 0 <= j < lv.len() && sets_key(#[trigger] lv[j], key@) {
        replaced
    } else {
        replaced.push(assignment(key@, value@))
    };
    assert(views(out@) == all);
    text.push('\n');
    assert(text@ =~= join(all, seq!['\n']) + seq!['\n']);
    *contents = string_of(&text);
}

/// After an upsert the file holds `key=value`, and every line that sets the
/// key sets it to `value`: no earlier value survives.
pub proof fn law_upsert_sets_the_key(contents: Seq<char>, key: Seq<char>, value: Seq<char>)
    ensures
        upserted_lines(contents, key, value).contains(assignment(key, value)),
        forall|i: int|
            0 <= i < upserted_lines(contents, key, value).len() && sets_key(
                #[trigger] upserted_lines(contents, key, value)[i],
                key,
            ) ==> upserted_lines(contents, key, value)[i] == assignment(key, value),
{
    let ls = lines(contents);
    let replaced = replaced_lines(ls, key, value);
    let out = upserted_lines(contents, key, value);
    if exists|i: int| 0 <= i < ls.len() && sets_key(#[trigger] ls[i], key) {
        let i = choose|i: int| 0 <= i < ls.len() && sets_key(#[trigger] ls[i], key);
        assert(out[i] == assignment(key, value));
    } else {
        assert(out[out.len() - 1] == assignment(key, value));
        assert forall|i: int| 0 <= i < replaced.len() implies !sets_key(#[trigger] replaced[i], key) by {
            assert(!sets_key(ls[i], key));
        }
    }
    assert forall|i: int| 0 <= i < out.len() && sets_key(#[trigger] out[i], key) implies out[i] == assignment(
        key,
        value,
    ) by {
        if i < replaced.len() {
            if !sets_key(ls[i], key) {
                assert(replaced[i] == ls[i]);
            }
        }
    }
}

// ---------------------------------------------------------------------------
// Where the skill goes
// ---------------------------------------------------------------------------

/// Where the skill is installed for a folder the user picked.
#[derive(Clone, Copy, Debug, PartialEq, Eq, Structural)]
pub enum SkillsDirChoice {
    /// The folder is the skills folder itself.
    AsGiven,
    /// The folder is a Hermes home: install into its `skills` child.
    SkillsChild,
}

pub open spec fn skills_choice_of(file_name: Option<Seq<char>>, has_config: bool) -> SkillsDirChoice {
    match file_name {
        Some(n) if eq_ignore_ascii_case(n, "skills"@) => SkillsDirChoice::AsGiven,
        Some(n) if eq_ignore_ascii_case(n, ".hermes"@) => SkillsDirChoice::SkillsChild,
        _ => if has_config {
            SkillsDirChoice::SkillsChild
        } else {
            SkillsDirChoice::AsGiven
        },
    }
}

/// A folder named `skills` (any ASCII case) is used as it is; a Hermes home
/// (it holds `config.yaml`, or is named `.hermes`) gets its `skills` child;
/// any other folder is used as it is.
pub fn skills_dir_choice(file_name: Option<&str>, has_config: bool) -> (r: SkillsDirChoice)
    ensures
        r == skills_choice_of(
            match file_name {
                Some(n) => Some(n@),
                None => None,
            },
            has_config,
        ),
{
    proof {
        reveal_strlit("skills");
        reveal_strlit(".hermes");
    }
    match file_name {
        Some(n) => {
            let name = chars_of(n);
            let skills = chars_of("skills");
            let hermes = chars_of(".hermes");
            if equals_ignore_ascii_case(&name, &skills) {
                SkillsDirChoice::AsGiven
            } else if equals_ignore_ascii_case(&name, &hermes) || has_config {
                SkillsDirChoice::SkillsChild
            } else {
                SkillsDirChoice::AsGiven
            }
        },
        None => if has_config {
            SkillsDirChoice::SkillsChild
        } else {
            SkillsDirChoice::AsGiven
        },
    }
}

/// Folder entries that are never copied with the skill: installed packages
/// and a developer's own credentials.
pub fn copies_entry(name: &str) -> (r: bool)
    ensures
        r == (name@ != "node_modules"@ && name@ != ".env"@),
{
    !str_eq(name, "node_modules") && !str_eq(name, ".env")
}

/// The agent API's address on this machine: `http://127.0.0.1:{port}`.
pub fn agent_base_url(port: u16) -> (r: String)
    ensures
        r@ == "http://127.0.0.1:"@ + decimal(port as nat),
{
    let mut text = chars_of("http://127.0.0.1:");
    let mut n = decimal_of(port as u64);
    text.append(&mut n);
    string_of(&text)
}

} // verus!
