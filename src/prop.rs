//! Module metadata text: lines, the ids they declare, and id validity.

use vstd::prelude::*;

verus! {

pub open spec fn is_ascii_letter(c: char) -> bool {
    ('a' <= c && c <= 'z') || ('A' <= c && c <= 'Z')
}

pub open spec fn is_id_char(c: char) -> bool {
    is_ascii_letter(c) || ('0' <= c && c <= '9') || c == '.' || c == '_' || c == '-'
}

/// A letter followed by one or more letters, digits, `.`, `_` or `-`.
pub open spec fn valid_module_id(s: Seq<char>) -> bool {
    &&& s.len() >= 2
    &&& is_ascii_letter(s[0])
    &&& forall|i: int| 1 <= i < s.len() ==> is_id_char(#[trigger] s[i])
}

pub fn validate_module_id(id: &str) -> (r: bool)
    ensures
        r == valid_module_id(id@),
{
    let n = id.unicode_len();
    if n < 2 {
        return false;
    }
    let c0 = id.get_char(0);
    if !(('a' <= c0 && c0 <= 'z') || ('A' <= c0 && c0 <= 'Z')) {
        return false;
    }
    let mut i: usize = 1;
    while i < n
        invariant
            n == id@.len(),
            1 <= i <= n,
            forall|k: int| 1 <= k < i ==> is_id_char(#[trigger] id@[k]),
        decreases n - i,
    {
        let c = id.get_char(i);
        if !(('a' <= c && c <= 'z') || ('A' <= c && c <= 'Z') || ('0' <= c && c <= '9') || c
            == '.' || c == '_' || c == '-') {
            return false;
        }
        i += 1;
    }
    true
}

/// The first position at or after `from` that holds `c`, or the length.
pub open spec fn next_index_of(s: Seq<char>, from: int, c: char) -> int {
    if exists|k: int| from <= k < s.len() && s[k] == c && forall|m: int| from <= m < k ==> s[m] != c {
        choose|k: int| from <= k < s.len() && s[k] == c && forall|m: int| from <= m < k ==> s[m] != c
    } else {
        s.len() as int
    }
}

/// A line that starts with `id` and holds `=` declares the id after the
/// first `=`, and that id must be valid.
pub open spec fn id_line_ok(line: Seq<char>) -> bool {
    let eq = next_index_of(line, 0, '=');
    (line.len() >= 2 && line[0] == 'i' && line[1] == 'd' && eq < line.len()) ==> valid_module_id(
        line.subrange(eq + 1, line.len() as int),
    )
}

/// The line that starts at `from`: up to the next newline, without the
/// carriage return before it.
pub open spec fn line_at(s: Seq<char>, from: int) -> Seq<char> {
    let end = next_index_of(s, from, '\n');
    if end < s.len() && end > from && s[end - 1] == '\r' {
        s.subrange(from, end - 1)
    } else {
        s.subrange(from, end)
    }
}

/// Every line of the text from `from` on is acceptable.
pub open spec fn ids_valid_from(s: Seq<char>, from: int) -> bool
    decreases s.len() - from,
{
    if 0 <= from <= s.len() {
        let end = next_index_of(s, from, '\n');
        id_line_ok(line_at(s, from)) && (end < s.len() ==> ids_valid_from(s, end + 1))
    } else {
        true
    }
}

pub open spec fn prop_ids_valid(text: Seq<char>) -> bool {
    ids_valid_from(text, 0)
}

pub(crate) proof fn lemma_next_index(s: Seq<char>, from: int, c: char, k: int)
    requires
        0 <= from <= k <= s.len(),
        k == s.len() || s[k] == c,
        forall|m: int| from <= m < k ==> s[m] != c,
    ensures
        next_index_of(s, from, c) == k,
{
    if exists|j: int| from <= j < s.len() && s[j] == c && forall|m: int| from <= m < j ==> s[m] != c {
        let j = choose|j: int|
            from <= j < s.len() && s[j] == c && forall|m: int| from <= m < j ==> s[m] != c;
        if j < k {
            assert(s[j] != c);
        } else if k < j {
            assert(s[k] != c);
        }
    } else {
        if k < s.len() {
            assert(from <= k < s.len() && s[k] == c && forall|m: int| from <= m < k ==> s[m] != c);
        }
    }
}

pub(crate) fn index_of(s: &Vec<char>, from: usize, end: usize, c: char) -> (r: usize)
    requires
        from <= end <= s.len(),
    ensures
        from <= r <= end,
        r < end ==> s@[r as int] == c,
        forall|m: int| from <= m < r ==> s@[m] != c,
{
    let mut k = from;
    while k < end
        invariant
            from <= k <= end <= s.len(),
            forall|m: int| from <= m < k ==> s@[m] != c,
        decreases end - k,
    {
        if s[k] == c {
            return k;
        }
        k += 1;
    }
    end
}

pub(crate) fn chars_of(s: &str) -> (r: Vec<char>)
    ensures
        r@ == s@,
{
    let n = s.unicode_len();
    let mut r: Vec<char> = Vec::new();
    let mut i: usize = 0;
    while i < n
        invariant
            n == s@.len(),
            i <= n,
            r@ == s@.subrange(0, i as int),
        decreases n - i,
    {
        r.push(s.get_char(i));
        i += 1;
        assert(r@ =~= s@.subrange(0, i as int));
    }
    r
}

fn id_chars_valid(s: &Vec<char>, from: usize, end: usize) -> (r: bool)
    requires
        from <= end <= s.len(),
    ensures
        r == valid_module_id(s@.subrange(from as int, end as int)),
{
    let ghost v = s@.subrange(from as int, end as int);
    if end - from < 2 {
        return false;
    }
    let c0 = s[from];
    if !(('a' <= c0 && c0 <= 'z') || ('A' <= c0 && c0 <= 'Z')) {
        return false;
    }
    let mut i: usize = from + 1;
    while i < end
        invariant
            from + 1 <= i <= end <= s.len(),
            v == s@.subrange(from as int, end as int),
            forall|k: int| 1 <= k < i - from ==> is_id_char(#[trigger] v[k]),
        decreases end - i,
    {
        let c = s[i];
        if !(('a' <= c && c <= 'z') || ('A' <= c && c <= 'Z') || ('0' <= c && c <= '9') || c
            == '.' || c == '_' || c == '-') {
            assert(v[i - from] == c);
            return false;
        }
        i += 1;
    }
    true
}

fn line_ok(s: &Vec<char>, from: usize, line_end: usize) -> (r: bool)
    requires
        from <= line_end <= s.len(),
    ensures
        r == id_line_ok(s@.subrange(from as int, line_end as int)),
{
    let ghost line = s@.subrange(from as int, line_end as int);
    let eq = index_of(s, from, line_end, '=');
    let starts_id = line_end - from >= 2 && s[from] == 'i' && s[from + 1] == 'd';
    proof {
        assert forall|m: int| 0 <= m < eq - from implies line[m] != '=' by {
            assert(line[m] == s@[from + m]);
        }
        lemma_next_index(line, 0, '=', eq - from);
        if eq < line_end {
            assert(line.subrange(eq - from + 1, line.len() as int) =~= s@.subrange(
                eq + 1,
                line_end as int,
            ));
        }
    }
    if starts_id && eq < line_end {
        id_chars_valid(s, eq + 1, line_end)
    } else {
        true
    }
}

/// Checks every id that the metadata text declares.
pub fn prop_ids_ok(text: &str) -> (r: bool)
    ensures
        r == prop_ids_valid(text@),
{
    let s = chars_of(text);
    let n = s.len();
    let mut from: usize = 0;
    assert(s@.subrange(0, n as int) =~= s@);
    while from <= n
        invariant
            n == s.len(),
            s@ == text@,
            s@.subrange(0, n as int) == s@,
            prop_ids_valid(text@) == ids_valid_from(s@, from as int),
        decreases n + 1 - from,
    {
        let end = index_of(&s, from, n, '\n');
        proof {
            lemma_next_index(s@, from as int, '\n', end as int);
        }
        let line_end = if end < n && end > from && s[end - 1] == '\r' {
            end - 1
        } else {
            end
        };
        assert(s@.subrange(from as int, line_end as int) == line_at(s@, from as int));
        if !line_ok(&s, from, line_end) {
            return false;
        }
        if end >= n {
            return true;
        }
        from = end + 1;
    }
    true
}

} // verus!
