//! What the module listing shows: the modules that would be mounted, with
//! the descriptive fields of their metadata.

use vstd::prelude::*;
use crate::builder::{ModuleCandidate, PropFile, partition_is_dir, has_marker, find_partition_index};
use crate::prop::{next_index_of, line_at, chars_of, index_of, lemma_next_index};

verus! {

#[derive(Debug)]
pub struct ModuleInfo {
    pub id: String,
    pub name: String,
    pub version: String,
    pub author: String,
    pub description: String,
    pub disabled: bool,
    pub skip: bool,
}

/// The characters that `char::is_whitespace` accepts (Unicode White_Space).
pub open spec fn is_ws(c: char) -> bool {
    ('\u{9}' <= c && c <= '\u{d}') || c == ' ' || c == '\u{85}' || c == '\u{a0}' || c == '\u{1680}'
        || ('\u{2000}' <= c && c <= '\u{200a}') || c == '\u{2028}' || c == '\u{2029}' || c == '\u{202f}'
        || c == '\u{205f}' || c == '\u{3000}'
}

fn is_ws_char(c: char) -> (r: bool)
    ensures
        r == is_ws(c),
{
    ('\u{9}' <= c && c <= '\u{d}') || c == ' ' || c == '\u{85}' || c == '\u{a0}' || c == '\u{1680}'
        || ('\u{2000}' <= c && c <= '\u{200a}') || c == '\u{2028}' || c == '\u{2029}' || c == '\u{202f}'
        || c == '\u{205f}' || c == '\u{3000}'
}

/// `s` without leading and trailing whitespace.
pub open spec fn trimmed(s: Seq<char>) -> Seq<char> {
    let a = if exists|k: int| 0 <= k < s.len() && !is_ws(s[k]) && forall|m: int| 0 <= m < k ==> is_ws(s[m]) {
        choose|k: int| 0 <= k < s.len() && !is_ws(s[k]) && forall|m: int| 0 <= m < k ==> is_ws(s[m])
    } else {
        s.len() as int
    };
    let b = if exists|k: int| a <= k < s.len() && !is_ws(s[k]) && forall|m: int| k < m < s.len() ==> is_ws(s[m]) {
        (choose|k: int| a <= k < s.len() && !is_ws(s[k]) && forall|m: int| k < m < s.len() ==> is_ws(s[m])) + 1
    } else {
        a
    };
    s.subrange(a, b)
}

/// The value of the first line that starts with `key` and holds `=`: what
/// follows the first `=`, trimmed.
pub open spec fn prop_value_from(s: Seq<char>, from: int, key: Seq<char>) -> Option<Seq<char>>
    decreases s.len() - from,
{
    if 0 <= from <= s.len() {
        let end = next_index_of(s, from, '\n');
        if line_value(line_at(s, from), key) is Some {
            line_value(line_at(s, from), key)
        } else if end < s.len() {
            prop_value_from(s, end + 1, key)
        } else {
            None
        }
    } else {
        None
    }
}

pub open spec fn prop_value(text: Seq<char>, key: Seq<char>) -> Option<Seq<char>> {
    prop_value_from(text, 0, key)
}

fn trim_range(s: &Vec<char>, from: usize, to: usize) -> (r: (usize, usize))
    requires
        from <= to <= s.len(),
    ensures
        from <= r.0 <= r.1 <= to,
        s@.subrange(r.0 as int, r.1 as int) == trimmed(s@.subrange(from as int, to as int)),
{
    let ghost v = s@.subrange(from as int, to as int);
    let mut a = from;
    while a < to && is_ws_char(s[a])
        invariant
            from <= a <= to <= s.len(),
            v == s@.subrange(from as int, to as int),
            forall|m: int| 0 <= m < a - from ==> is_ws(v[m]),
        decreases to - a,
    {
        a += 1;
    }
    let ghost ga = (a - from) as int;
    proof {
        if a < to {
            assert(!is_ws(v[ga]));
            let k = choose|k: int| 0 <= k < v.len() && !is_ws(v[k]) && forall|m: int| 0 <= m < k ==> is_ws(v[m]);
            if k < ga {
                assert(is_ws(v[k]));
            } else if ga < k {
                assert(is_ws(v[ga]));
            }
        } else {
            assert forall|k: int| !(0 <= k < v.len() && !is_ws(v[k]) && forall|m: int| 0 <= m < k ==> is_ws(v[m])) by {
                if 0 <= k < v.len() {
                    assert(is_ws(v[k]));
                }
            }
        }
    }
    let mut b = to;
    while b > a && is_ws_char(s[b - 1])
        invariant
            from <= a <= b <= to <= s.len(),
            v == s@.subrange(from as int, to as int),
            forall|m: int| b - from <= m < v.len() ==> is_ws(v[m]),
        decreases b - a,
    {
        b -= 1;
    }
    let ghost gb = (b - from) as int;
    proof {
        if b > a {
            assert(!is_ws(v[gb - 1]));
            let k = choose|k: int| ga <= k < v.len() && !is_ws(v[k]) && forall|m: int| k < m < v.len() ==> is_ws(v[m]);
            if k < gb - 1 {
                assert(is_ws(v[gb - 1]));
            } else if gb - 1 < k {
                assert(is_ws(v[k]));
            }
        } else {
            assert forall|k: int| !(ga <= k < v.len() && !is_ws(v[k]) && forall|m: int| k < m < v.len() ==> is_ws(v[m])) by {
                if ga <= k < v.len() {
                    assert(is_ws(v[k]));
                }
            }
        }
        assert(s@.subrange(a as int, b as int) =~= v.subrange(ga, gb));
    }
    (a, b)
}

fn starts_with_at(s: &Vec<char>, from: usize, line_end: usize, key: &Vec<char>) -> (r: bool)
    requires
        from <= line_end <= s.len(),
    ensures
        r == (line_end - from >= key.len() && s@.subrange(from as int, line_end as int).subrange(0, key.len() as int) == key@),
{
    if line_end - from < key.len() {
        return false;
    }
    let ghost line = s@.subrange(from as int, line_end as int);
    let mut k: usize = 0;
    while k < key.len()
        invariant
            k <= key.len(),
            line_end - from >= key.len(),
            from <= line_end <= s.len(),
            line == s@.subrange(from as int, line_end as int),
            forall|m: int| 0 <= m < k ==> line[m] == key@[m],
        decreases key.len() - k,
    {
        if s[from + k] != key[k] {
            assert(line.subrange(0, key.len() as int)[k as int] != key@[k as int]);
            return false;
        }
        k += 1;
    }
    assert(line.subrange(0, key.len() as int) =~= key@);
    true
}

/// The value that one line gives for `key`, if any.
pub open spec fn line_value(line: Seq<char>, key: Seq<char>) -> Option<Seq<char>> {
    let eq = next_index_of(line, 0, '=');
    if line.len() >= key.len() && line.subrange(0, key.len() as int) == key && eq < line.len() {
        Some(trimmed(line.subrange(eq + 1, line.len() as int)))
    } else {
        None
    }
}

fn value_in_line(text: &str, s: &Vec<char>, from: usize, line_end: usize, k: &Vec<char>) -> (r: Option<String>)
    requires
        s@ == text@,
        from <= line_end <= s.len(),
    ensures
        match line_value(s@.subrange(from as int, line_end as int), k@) {
            Some(v) => r is Some && r->0@ == v,
            None => r is None,
        },
{
    let ghost line = s@.subrange(from as int, line_end as int);
    let eq = index_of(s, from, line_end, '=');
    proof {
        assert forall|m: int| 0 <= m < eq - from implies line[m] != '=' by {
            assert(line[m] == s@[from + m]);
        }
        lemma_next_index(line, 0, '=', eq - from);
    }
    if starts_with_at(s, from, line_end, k) && eq < line_end {
        let (a, b) = trim_range(s, eq + 1, line_end);
        proof {
            assert(line.subrange(eq - from + 1, line.len() as int) =~= s@.subrange(eq + 1, line_end as int));
        }
        Some(text.substring_char(a, b).to_string())
    } else {
        None
    }
}

/// The value of `key` in metadata text: the first line that starts with
/// `key` and holds `=` gives what follows its first `=`, trimmed.
pub fn read_prop(text: &str, key: &str) -> (r: Option<String>)
    ensures
        match prop_value(text@, key@) {
            Some(v) => r is Some && r->0@ == v,
            None => r is None,
        },
{
    let s = chars_of(text);
    let k = chars_of(key);
    let n = s.len();
    let mut from: usize = 0;
    while from <= n
        invariant
            n == s.len(),
            s@ == text@,
            k@ == key@,
            prop_value(text@, key@) == prop_value_from(s@, from as int, key@),
        decreases n + 1 - from,
    {
        let end = index_of(&s, from, n, '\n');
        proof {
            lemma_next_index(s@, from as int, '\n', end as int);
        }
        let line_end = if end < n && end > from && s[end - 1] == '\r' {
            end - 1
        } else {
            end
        };
        assert(s@.subrange(from as int, line_end as int) == line_at(s@, from as int));
        let v = value_in_line(text, &s, from, line_end, &k);
        if v.is_some() {
            return v;
        }
        if end >= n {
            return None;
        }
        from = end + 1;
    }
    None
}

/// A module the listing shows: a directory with readable metadata, a
/// `system` or `odm` content directory, and no marker.
pub open spec fn scan_accepts(m: ModuleCandidate) -> bool {
    &&& m.is_dir
    &&& m.prop is Text
    &&& (partition_is_dir(m, seq!['s', 'y', 's', 't', 'e', 'm']) || partition_is_dir(m, seq!['o', 'd', 'm']))
    &&& !has_marker(m)
}

/// The accepted modules, in order.
pub open spec fn accepted(ms: Seq<ModuleCandidate>) -> Seq<ModuleCandidate>
    decreases ms.len(),
{
    if ms.len() == 0 {
        seq![]
    } else if scan_accepts(ms.last()) {
        accepted(ms.drop_last()).push(ms.last())
    } else {
        accepted(ms.drop_last())
    }
}

pub open spec fn or_default(v: Option<Seq<char>>, d: Seq<char>) -> Seq<char> {
    match v {
        Some(v) => v,
        None => d,
    }
}

/// The listing entry of an accepted module: its id is the directory name,
/// and a field missing from the metadata is the id (for the name) or
/// `unknown`.
pub open spec fn info_of(info: ModuleInfo, m: ModuleCandidate) -> bool {
    let t = m.prop->Text_0@;
    &&& info.id@ == m.name@
    &&& info.name@ == or_default(prop_value(t, "name"@), m.name@)
    &&& info.version@ == or_default(prop_value(t, "version"@), "unknown"@)
    &&& info.author@ == or_default(prop_value(t, "author"@), "unknown"@)
    &&& info.description@ == or_default(prop_value(t, "description"@), "unknown"@)
    &&& !info.disabled
    &&& !info.skip
}

fn prop_or(text: &str, key: &str, default: &String) -> (r: String)
    ensures
        r@ == or_default(prop_value(text@, key@), default@),
{
    match read_prop(text, key) {
        Some(v) => v,
        None => default.clone(),
    }
}

fn is_dir_partition(m: &ModuleCandidate, name: &str) -> (r: bool)
    ensures
        r == partition_is_dir(*m, name@),
{
    let name = name.to_string();
    match find_partition_index(&m.partitions, &name) {
        Some(j) => m.partitions[j].is_dir,
        None => false,
    }
}

/// The modules that would be mounted, in the order given, with what their
/// metadata says of them.
pub fn scan_modules(modules: &Vec<ModuleCandidate>) -> (r: Vec<ModuleInfo>)
    ensures
        r@.len() == accepted(modules@).len(),
        forall|i: int| 0 <= i < r@.len() ==> info_of(#[trigger] r@[i], accepted(modules@)[i]),
{
    let unknown = String::from_str("unknown");
    let mut r: Vec<ModuleInfo> = Vec::new();
    let mut i: usize = 0;
    while i < modules.len()
        invariant
            i <= modules.len(),
            unknown@ == "unknown"@,
            r@.len() == accepted(modules@.take(i as int)).len(),
            forall|q: int| 0 <= q < r@.len() ==> info_of(#[trigger] r@[q], accepted(modules@.take(i as int))[q]),
        decreases modules.len() - i,
    {
        let m = &modules[i];
        proof {
            assert(modules@.take(i + 1).drop_last() =~= modules@.take(i as int));
            assert(modules@.take(i + 1).last() == *m);
            reveal_strlit("system");
            reveal_strlit("odm");
            assert("system"@ =~= seq!['s', 'y', 's', 't', 'e', 'm']);
            assert("odm"@ =~= seq!['o', 'd', 'm']);
        }
        let ghost prev = accepted(modules@.take(i as int));
        if m.is_dir && !(m.disabled || m.removed || m.skip_mount) && (is_dir_partition(m, "system")
            || is_dir_partition(m, "odm")) {
            match &m.prop {
                PropFile::Text(t) => {
                    let text = t.as_str();
                    let info = ModuleInfo {
                        id: m.name.clone(),
                        name: prop_or(text, "name", &m.name),
                        version: prop_or(text, "version", &unknown),
                        author: prop_or(text, "author", &unknown),
                        description: prop_or(text, "description", &unknown),
                        disabled: false,
                        skip: false,
                    };
                    r.push(info);
                    assert forall|q: int| 0 <= q < r@.len() implies info_of(#[trigger] r@[q], accepted(modules@.take(i + 1))[q]) by {
                        assert(accepted(modules@.take(i + 1)) == prev.push(*m));

                    }
                },
                _ => {},
            }
        }
        i += 1;
    }
    assert(modules@.take(modules.len() as int) =~= modules@);
    r
}

} // verus!
