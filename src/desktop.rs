//! Entry discovery from desktop-entry files and from executable files.

use vstd::prelude::*;
use crate::entry::{AppEntry, EntryView};
use crate::text::{chars_of, string_of};

verus! {

/// Index of the first line feed at or after `i`, or the length of `s`.
pub open spec fn line_end(s: Seq<char>, i: int) -> int
    decreases s.len() - i,
{
    if i >= s.len() {
        s.len() as int
    } else if s[i] == '\n' {
        i
    } else {
        line_end(s, i + 1)
    }
}

/// The text of the line that starts at `i`, without its line ending
/// (a line feed, or a carriage return and a line feed).
pub open spec fn line_text(s: Seq<char>, i: int) -> Seq<char> {
    let e = line_end(s, i);
    if e < s.len() && e > i && s[e - 1] == '\r' {
        s.subrange(i, e - 1)
    } else {
        s.subrange(i, e)
    }
}

/// The line that starts at `i` ends at or after `i`, and no line feed comes
/// before its end.
pub proof fn lemma_line_end(s: Seq<char>, i: int)
    requires
        0 <= i <= s.len(),
    ensures
        i <= line_end(s, i) <= s.len(),
        line_end(s, i) < s.len() ==> s[line_end(s, i)] == '\n',
        forall|k: int| i <= k < line_end(s, i) ==> s[k] != '\n',
    decreases s.len() - i,
{
    if i < s.len() && s[i] != '\n' {
        lemma_line_end(s, i + 1);
    }
}

/// `p` is a prefix of `s`.
pub open spec fn starts_with(s: Seq<char>, p: Seq<char>) -> bool {
    p.len() <= s.len() && s.take(p.len() as int) == p
}

/// The text after `key` on the first line, at or after position `i`, that
/// starts with `key`.
pub open spec fn first_value_from(s: Seq<char>, i: int, key: Seq<char>) -> Option<Seq<char>>
    decreases s.len() + 1 - i,
{
    if i < 0 || i >= s.len() {
        None
    } else if starts_with(line_text(s, i), key) {
        Some(line_text(s, i).skip(key.len() as int))
    } else {
        proof {
            lemma_line_end(s, i);
        }
        first_value_from(s, line_end(s, i) + 1, key)
    }
}

/// The text after `key` on the first line of `s` that starts with `key`.
pub open spec fn first_value(s: Seq<char>, key: Seq<char>) -> Option<Seq<char>> {
    first_value_from(s, 0, key)
}

/// The letters that follow `%` in a field code of a desktop entry's
/// command line.
pub open spec fn is_field_code(c: char) -> bool {
    c == 'f' || c == 'u' || c == 'U' || c == 'F' || c == 'i' || c == 'c' || c == 'k'
}

/// `s` with every field code removed; a code that stands as a word of its
/// own goes together with the one space that follows it. `after_space`
/// tells whether the character before `s` is a space or `s` starts the text.
pub open spec fn strip_codes_from(s: Seq<char>, after_space: bool) -> Seq<char>
    decreases s.len(),
{
    if s.len() >= 2 && s[0] == '%' && is_field_code(s[1]) {
        if after_space && s.len() >= 3 && s[2] == ' ' {
            strip_codes_from(s.skip(3), true)
        } else {
            strip_codes_from(s.skip(2), false)
        }
    } else if s.len() == 0 {
        s
    } else {
        seq![s[0]] + strip_codes_from(s.skip(1), s[0] == ' ')
    }
}

/// `s` with every field code removed; a code that stands as a word of its
/// own goes together with the one space that follows it.
pub open spec fn strip_field_codes(s: Seq<char>) -> Seq<char> {
    strip_codes_from(s, true)
}

/// The characters that Unicode counts as white space.
pub open spec fn is_space(c: char) -> bool {
    ('\u{9}' <= c && c <= '\u{d}') || c == ' ' || c == '\u{85}' || c == '\u{a0}'
        || c == '\u{1680}' || ('\u{2000}' <= c && c <= '\u{200a}') || c == '\u{2028}'
        || c == '\u{2029}' || c == '\u{202f}' || c == '\u{205f}' || c == '\u{3000}'
}

/// Whether `c` is white space.
pub fn is_space_exec(c: char) -> (r: bool)
    ensures
        r == is_space(c),
{
    ('\u{9}' <= c && c <= '\u{d}') || c == ' ' || c == '\u{85}' || c == '\u{a0}'
        || c == '\u{1680}' || ('\u{2000}' <= c && c <= '\u{200a}') || c == '\u{2028}'
        || c == '\u{2029}' || c == '\u{202f}' || c == '\u{205f}' || c == '\u{3000}'
}

/// `s` without its leading white space.
pub open spec fn trim_front(s: Seq<char>) -> Seq<char>
    decreases s.len(),
{
    if s.len() > 0 && is_space(s[0]) {
        trim_front(s.drop_first())
    } else {
        s
    }
}

/// `s` without its trailing white space.
pub open spec fn trim_back(s: Seq<char>) -> Seq<char>
    decreases s.len(),
{
    if s.len() > 0 && is_space(s.last()) {
        trim_back(s.drop_last())
    } else {
        s
    }
}

/// `s` without white space at either end.
pub open spec fn trim(s: Seq<char>) -> Seq<char> {
    trim_back(trim_front(s))
}

/// The command line that an `Exec` value stands for.
pub open spec fn clean_command(exec: Seq<char>) -> Seq<char> {
    trim(strip_field_codes(exec))
}

/// The entry that a desktop-entry text describes: its first `Name=` value,
/// which must not be empty, and its first `Exec=` value, cleaned.
pub open spec fn desktop_entry(content: Seq<char>) -> Option<EntryView> {
    let name = first_value(content, "Name="@);
    let exec = first_value(content, "Exec="@);
    if name is Some && exec is Some && name->0.len() > 0 {
        Some(EntryView { name: name->0, command: clean_command(exec->0) })
    } else {
        None
    }
}


/// Index of the first line feed in `v` at or after `i`, or the length of `v`.
fn line_end_exec(v: &Vec<char>, i: usize) -> (e: usize)
    requires
        i <= v.len(),
    ensures
        e == line_end(v@, i as int),
{
    let mut j: usize = i;
    while j < v.len() && v[j] != '\n'
        invariant
            i <= j <= v.len(),
            line_end(v@, i as int) == line_end(v@, j as int),
        decreases v.len() - j,
    {
        j = j + 1;
    }
    j
}

/// Whether `v[lo..hi]` starts with `key`.
fn starts_with_at(v: &Vec<char>, lo: usize, hi: usize, key: &Vec<char>) -> (r: bool)
    requires
        lo <= hi <= v.len(),
    ensures
        r == starts_with(v@.subrange(lo as int, hi as int), key@),
{
    if key.len() > hi - lo {
        return false;
    }
    let mut k: usize = 0;
    while k < key.len()
        invariant
            lo <= hi <= v.len(),
            key.len() <= hi - lo,
            k <= key.len(),
            forall|m: int| 0 <= m < k ==> v@[lo + m] == key@[m],
        decreases key.len() - k,
    {
        if v[lo + k] != key[k] {
            assert(v@.subrange(lo as int, hi as int).take(key.len() as int)[k as int] != key@[k as int]);
            return false;
        }
        k = k + 1;
    }
    assert(v@.subrange(lo as int, hi as int).take(key.len() as int) == key@);
    true
}

/// Where the value after `key` on the first line of `v` that starts with
/// `key` lies in `v`, if such a line exists.
pub fn find_value(v: &Vec<char>, key: &Vec<char>) -> (r: Option<(usize, usize)>)
    ensures
        match r {
            Some((a, b)) => a <= b <= v.len() && first_value(v@, key@) == Some(
                v@.subrange(a as int, b as int),
            ),
            None => first_value(v@, key@) is None,
        },
{
    let mut i: usize = 0;
    while i < v.len()
        invariant
            i <= v.len(),
            first_value(v@, key@) == first_value_from(v@, i as int, key@),
        decreases v.len() - i,
    {
        let e = line_end_exec(v, i);
        proof {
            lemma_line_end(v@, i as int);
        }
        let le: usize = if e < v.len() && e > i && v[e - 1] == '\r' {
            e - 1
        } else {
            e
        };
        assert(line_text(v@, i as int) == v@.subrange(i as int, le as int));
        if starts_with_at(v, i, le, key) {
            assert(v@.subrange(i as int, le as int).skip(key.len() as int) == v@.subrange(
                i + key.len(),
                le as int,
            ));
            return Some((i + key.len(), le));
        }
        if e >= v.len() {
            assert(first_value_from(v@, e + 1, key@) is None);
            return None;
        }
        i = e + 1;
    }
    None
}

/// `v` with every field code removed; a code that stands as a word of its
/// own goes with the one space that follows it.
pub fn strip_field_codes_exec(v: &Vec<char>) -> (r: Vec<char>)
    ensures
        r@ == strip_field_codes(v@),
{
    let mut out: Vec<char> = Vec::new();
    let mut i: usize = 0;
    let mut after_space = true;
    assert(v@.skip(0) == v@);
    while i < v.len()
        invariant
            i <= v.len(),
            out@ + strip_codes_from(v@.skip(i as int), after_space) == strip_field_codes(v@),
        decreases v.len() - i,
    {
        let ghost t = v@.skip(i as int);
        if i + 1 < v.len() && v[i] == '%' && (v[i + 1] == 'f' || v[i + 1] == 'u' || v[i + 1] == 'U'
            || v[i + 1] == 'F' || v[i + 1] == 'i' || v[i + 1] == 'c' || v[i + 1] == 'k') {
            if after_space && i + 2 < v.len() && v[i + 2] == ' ' {
                assert(t.skip(3) == v@.skip(i + 3));
                i = i + 3;
            } else {
                assert(t.skip(2) == v@.skip(i + 2));
                i = i + 2;
                after_space = false;
            }
        } else {
            let c = v[i];
            assert(t.skip(1) == v@.skip(i + 1));
            assert(out@.push(c) + strip_codes_from(t.skip(1), c == ' ') == out@ + (seq![c]
                + strip_codes_from(t.skip(1), c == ' ')));
            out.push(c);
            i = i + 1;
            after_space = c == ' ';
        }
    }
    assert(v@.skip(i as int).len() == 0);
    assert(out@ + strip_codes_from(v@.skip(i as int), after_space) == out@);
    out
}

/// Where `v` without white space at either end lies in `v`.
pub fn trim_bounds(v: &Vec<char>) -> (r: (usize, usize))
    ensures
        r.0 <= r.1 <= v.len(),
        v@.subrange(r.0 as int, r.1 as int) == trim(v@),
{
    let mut a: usize = 0;
    assert(v@.skip(0) == v@);
    while a < v.len() && is_space_exec(v[a])
        invariant
            a <= v.len(),
            trim_front(v@) == trim_front(v@.skip(a as int)),
        decreases v.len() - a,
    {
        assert(v@.skip(a as int).drop_first() == v@.skip(a + 1));
        a = a + 1;
    }
    assert(trim_front(v@.skip(a as int)) == v@.skip(a as int));
    let mut b: usize = v.len();
    assert(v@.skip(a as int) == v@.subrange(a as int, b as int));
    while b > a && is_space_exec(v[b - 1])
        invariant
            a <= b <= v.len(),
            trim(v@) == trim_back(v@.subrange(a as int, b as int)),
        decreases b,
    {
        assert(v@.subrange(a as int, b as int).drop_last() == v@.subrange(a as int, b - 1));
        b = b - 1;
    }
    (a, b)
}

/// Parses the text of a desktop-entry file: the entry takes the first
/// `Name=` value as its name and the first `Exec=` value, without field
/// codes and surrounding white space, as its command. There is no entry
/// when either key is missing or the name is empty.
pub fn parse_desktop_entry(content: &str) -> (r: Option<AppEntry>)
    ensures
        match desktop_entry(content@) {
            Some(e) => r is Some && r->0@ == e,
            None => r is None,
        },
        r is Some ==> r->0.wf(),
{
    let v = chars_of(content);
    let name_key = chars_of("Name=");
    let exec_key = chars_of("Exec=");
    let name_at = find_value(&v, &name_key);
    let exec_at = find_value(&v, &exec_key);
    match (name_at, exec_at) {
        (Some((na, nb)), Some((ea, eb))) => {
            if na == nb {
                return None;
            }
            let name = string_of(&v, na, nb);
            let exec = string_of(&v, ea, eb);
            let exec_chars = chars_of(exec.as_str());
            let stripped = strip_field_codes_exec(&exec_chars);
            let (ta, tb) = trim_bounds(&stripped);
            let command = string_of(&stripped, ta, tb);
            Some(AppEntry::new(name, command))
        },
        _ => None,
    }
}

/// The length of the suffix that marks a desktop-entry file name.
pub const DESKTOP_SUFFIX_LEN: usize = 8;

/// Whether a file name has the extension `desktop`: it ends with
/// `.desktop` and something comes before that dot.
pub open spec fn is_desktop_file_name(name: Seq<char>) -> bool {
    name.len() > 8 && name.skip(name.len() - 8) == ".desktop"@
}

/// Whether the file name `name` has the extension `desktop`.
pub fn has_desktop_extension(name: &str) -> (r: bool)
    ensures
        r == is_desktop_file_name(name@),
{
    let v = chars_of(name);
    let suffix = chars_of(".desktop");
    proof {
        reveal_strlit(".desktop");
    }
    if v.len() <= DESKTOP_SUFFIX_LEN {
        return false;
    }
    let start: usize = v.len() - DESKTOP_SUFFIX_LEN;
    let r = starts_with_at(&v, start, v.len(), &suffix);
    assert(v@.subrange(start as int, v.len() as int) == v@.skip(start as int));
    assert(v@.skip(start as int).take(8) == v@.skip(start as int));
    r
}

/// Any of the three execute bits of a Unix file mode.
pub const EXECUTE_BITS: u32 = 0o111;

/// The entry for a file of an executable directory: a file with any
/// execute bit set, named neither empty, is launched by its own name.
pub fn executable_entry(file_name: &str, mode: u32) -> (r: Option<AppEntry>)
    ensures
        r is Some <==> (mode & EXECUTE_BITS) != 0 && file_name@.len() > 0,
        r is Some ==> r->0.name@ == file_name@ && r->0.command@ == file_name@,
{
    if (mode & EXECUTE_BITS) != 0 && !file_name.is_empty() {
        Some(AppEntry::new(file_name.to_owned(), file_name.to_owned()))
    } else {
        None
    }
}

} // verus!
