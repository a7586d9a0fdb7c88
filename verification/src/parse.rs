//! Metadata parsing.
//!
//! A resource file opens with a metadata block: YAML front matter between
//! `---` fences for the file-backed kinds, a JSON document for hooks.  The
//! strict stage hands the block to an outside parser through trusted
//! wrappers; when the block is not valid YAML, a deterministic
//! pattern-based extractor of this module's own takes over and returns a
//! best-effort partial result, never an error.

use vstd::prelude::*;

use crate::resources::{AgentMetadata, CommandMetadata, HookEventType};
use crate::strutil::{
    push_char, spec_split, spec_starts_with, spec_trim, split_str, starts_with_str, trim_str,
};

verus! {

/// What the outside YAML parser accepts: whether the block is well-formed.
pub uninterp spec fn yaml_ok(s: Seq<char>) -> bool;

/// What the outside YAML parser returns for a string-valued key of a
/// well-formed block.
pub uninterp spec fn yaml_str_field(s: Seq<char>, key: Seq<char>) -> Option<Seq<char>>;

/// What the outside YAML parser returns for a list-valued key of a
/// well-formed block, each item read as a string.
pub uninterp spec fn yaml_list_field(s: Seq<char>, key: Seq<char>) -> Option<Seq<Seq<char>>>;

/// Relies on `serde_yaml::from_str::<serde_yaml::Value>`: whether the
/// block parses depends on its characters alone.
#[verifier::external_body]
pub fn yaml_parse_ok(front: &str) -> (r: bool)
    ensures
        r == yaml_ok(front@),
{
    serde_yaml::from_str::<serde_yaml::Value>(front).is_ok()
}

/// Relies on `serde_yaml::from_str`, `serde_yaml::Value::get` and
/// `serde_yaml::Value::as_str`: the string under a mapping key, a function
/// of the block and the key alone.
#[verifier::external_body]
pub fn yaml_get_str(front: &str, key: &str) -> (r: Option<String>)
    ensures
        match r {
            Some(v) => yaml_str_field(front@, key@) == Some(v@),
            None => yaml_str_field(front@, key@) is None,
        },
{
    let value: serde_yaml::Value = match serde_yaml::from_str(front) {
        Ok(v) => v,
        Err(_) => return None,
    };
    let field = match value.get(key) {
        Some(f) => f,
        None => return None,
    };
    match field.as_str() {
        Some(s) => Some(s.to_string()),
        None => None,
    }
}

/// Relies on `serde_yaml::from_str`, `serde_yaml::Value::get`,
/// `serde_yaml::Value::as_sequence` and `serde_yaml::Value::as_str`: the
/// string items under a sequence-valued mapping key, a function of the
/// block and the key alone; items that are not strings read as empty.
#[verifier::external_body]
pub fn yaml_get_str_list(front: &str, key: &str) -> (r: Option<Vec<String>>)
    ensures
        match r {
            Some(v) => yaml_list_field(front@, key@) == Some(v.deep_view()),
            None => yaml_list_field(front@, key@) is None,
        },
{
    let value: serde_yaml::Value = match serde_yaml::from_str(front) {
        Ok(v) => v,
        Err(_) => return None,
    };
    let seq = match value.get(key) {
        Some(f) => f.as_sequence(),
        None => return None,
    };
    seq.map(|items| items.iter().map(|x| x.as_str().unwrap_or("").to_string()).collect())
}

/// What the outside JSON parser accepts: whether the document is
/// well-formed.
pub uninterp spec fn json_ok(s: Seq<char>) -> bool;

/// What the outside JSON parser returns for a string-valued top-level key.
pub uninterp spec fn json_str_field(s: Seq<char>, key: Seq<char>) -> Option<Seq<char>>;

/// What the outside JSON parser returns for an integer-valued top-level
/// key.
pub uninterp spec fn json_int_field(s: Seq<char>, key: Seq<char>) -> Option<int>;

/// What the outside JSON parser returns for a boolean-valued top-level
/// key.
pub uninterp spec fn json_bool_field(s: Seq<char>, key: Seq<char>) -> Option<bool>;

/// The canonical serialization of the value under a top-level key of a
/// JSON document.
pub uninterp spec fn json_field_json(s: Seq<char>, key: Seq<char>) -> Option<Seq<char>>;

/// Relies on `serde_json::from_str::<serde_json::Value>`: whether the
/// document parses depends on its characters alone.
#[verifier::external_body]
pub fn json_parse_ok(content: &str) -> (r: bool)
    ensures
        r == json_ok(content@),
{
    serde_json::from_str::<serde_json::Value>(content).is_ok()
}

/// Relies on `serde_json::from_str`, `serde_json::Value::get` and
/// `serde_json::Value::as_str`: the string under a top-level key.
#[verifier::external_body]
pub fn json_get_str(content: &str, key: &str) -> (r: Option<String>)
    ensures
        match r {
            Some(v) => json_str_field(content@, key@) == Some(v@),
            None => json_str_field(content@, key@) is None,
        },
{
    let value: serde_json::Value = match serde_json::from_str(content) {
        Ok(v) => v,
        Err(_) => return None,
    };
    let field = match value.get(key) {
        Some(f) => f,
        None => return None,
    };
    match field.as_str() {
        Some(s) => Some(s.to_string()),
        None => None,
    }
}

/// Relies on `serde_json::from_str`, `serde_json::Value::get` and
/// `serde_json::Value::as_i64`: the integer under a top-level key.
#[verifier::external_body]
pub fn json_get_i64(content: &str, key: &str) -> (r: Option<i64>)
    ensures
        match r {
            Some(v) => json_int_field(content@, key@) == Some(v as int),
            None => json_int_field(content@, key@) is None,
        },
{
    let value: serde_json::Value = match serde_json::from_str(content) {
        Ok(v) => v,
        Err(_) => return None,
    };
    let field = match value.get(key) {
        Some(f) => f,
        None => return None,
    };
    field.as_i64()
}

/// Relies on `serde_json::from_str`, `serde_json::Value::get` and
/// `serde_json::Value::as_bool`: the boolean under a top-level key.
#[verifier::external_body]
pub fn json_get_bool(content: &str, key: &str) -> (r: Option<bool>)
    ensures
        match r {
            Some(v) => json_bool_field(content@, key@) == Some(v),
            None => json_bool_field(content@, key@) is None,
        },
{
    let value: serde_json::Value = match serde_json::from_str(content) {
        Ok(v) => v,
        Err(_) => return None,
    };
    let field = match value.get(key) {
        Some(f) => f,
        None => return None,
    };
    field.as_bool()
}

/// Relies on `serde_json::from_str`, `serde_json::Value::get` and
/// `serde_json::to_string`: the value under a top-level key, re-serialized
/// canonically; a function of the document and the key alone.
#[verifier::external_body]
pub fn json_get_field_text(content: &str, key: &str) -> (r: Option<String>)
    ensures
        match r {
            Some(v) => json_field_json(content@, key@) == Some(v@),
            None => json_field_json(content@, key@) is None,
        },
{
    let value: serde_json::Value = match serde_json::from_str(content) {
        Ok(v) => v,
        Err(_) => return None,
    };
    let field = match value.get(key) {
        Some(f) => f,
        None => return None,
    };
    serde_json::to_string(field).ok()
}

/// Index of the first occurrence of `pat` in `s`; `-1` when absent.
pub open spec fn spec_find_str(s: Seq<char>, pat: Seq<char>) -> int
    decreases s.len(),
{
    if spec_starts_with(s, pat) {
        0
    } else if s.len() == 0 {
        -1
    } else {
        let r = spec_find_str(s.subrange(1, s.len() as int), pat);
        if r < 0 {
            -1
        } else {
            1 + r
        }
    }
}

/// A position preceded by no occurrence of `pat`, and holding one unless
/// `-1`, is exactly `spec_find_str`.
pub proof fn lemma_find_str_at(s: Seq<char>, pat: Seq<char>, i: int)
    requires
        -1 <= i <= s.len(),
        i >= 0 ==> spec_starts_with(s.subrange(i, s.len() as int), pat),
        forall|q: int|
            0 <= q < i || (i == -1 && 0 <= q <= s.len()) ==> !spec_starts_with(
                s.subrange(q, s.len() as int),
                pat,
            ),
    ensures
        spec_find_str(s, pat) == i,
    decreases s.len(),
{
    assert(s.subrange(0, s.len() as int) =~= s);
    if spec_starts_with(s, pat) {
        assert(i != -1);
        assert(i == 0);
    } else if s.len() == 0 {
        assert(i != 0);
    } else {
        let t = s.subrange(1, s.len() as int);
        if i == -1 {
            assert forall|q: int| 0 <= q <= t.len() implies !spec_starts_with(
                t.subrange(q, t.len() as int),
                pat,
            ) by {
                assert(t.subrange(q, t.len() as int) =~= s.subrange(q + 1, s.len() as int));
            }
            lemma_find_str_at(t, pat, -1);
        } else {
            assert(i >= 1);
            assert(t.subrange(i - 1, t.len() as int) =~= s.subrange(i, s.len() as int));
            assert forall|q: int| 0 <= q < i - 1 implies !spec_starts_with(
                t.subrange(q, t.len() as int),
                pat,
            ) by {
                assert(t.subrange(q, t.len() as int) =~= s.subrange(q + 1, s.len() as int));
            }
            lemma_find_str_at(t, pat, i - 1);
        }
    }
}

/// Find the first occurrence of `pat` at or after `from` in `s`.
pub fn find_str_from(s: &str, pat: &str, from: usize) -> (r: Option<usize>)
    requires
        from <= s@.len(),
    ensures
        match r {
            Some(i) => from <= i && i + pat@.len() <= s@.len() && spec_starts_with(
                s@.subrange(i as int, s@.len() as int),
                pat@,
            ) && forall|q: int|
                from <= q < i ==> !spec_starts_with(s@.subrange(q, s@.len() as int), pat@),
            None => forall|q: int|
                from <= q <= s@.len() ==> !spec_starts_with(
                    s@.subrange(q, s@.len() as int),
                    pat@,
                ),
        },
{
    let n = s.unicode_len();
    let p = pat.unicode_len();
    if p == 0 {
        proof {
            assert(spec_starts_with(s@.subrange(from as int, s@.len() as int), pat@)) by {
                assert(s@.subrange(from as int, s@.len() as int).subrange(0, 0) =~= pat@);
            }
        }
        return Some(from);
    }
    if p > n {
        proof {
            assert forall|q: int| from <= q <= s@.len() implies !spec_starts_with(
                s@.subrange(q, s@.len() as int),
                pat@,
            ) by {
                assert(s@.subrange(q, s@.len() as int).len() < pat@.len());
            }
        }
        return None;
    }
    if from > n - p {
        proof {
            assert forall|q: int| from <= q <= s@.len() implies !spec_starts_with(
                s@.subrange(q, s@.len() as int),
                pat@,
            ) by {
                assert(s@.subrange(q, s@.len() as int).len() < pat@.len());
            }
        }
        return None;
    }
    let mut i: usize = from;
    while i <= n - p
        invariant
            from <= i,
            0 < p <= n,
            i <= n - p + 1,
            n == s@.len(),
            p == pat@.len(),
            forall|q: int|
                from <= q < i ==> !spec_starts_with(s@.subrange(q, s@.len() as int), pat@),
        decreases n - p + 1 - i,
    {
        let mut k: usize = 0;
        let mut matched = true;
        while k < p && matched
            invariant
                k <= p,
                i + p <= n,
                n == s@.len(),
                p == pat@.len(),
                matched ==> forall|j: int| 0 <= j < k ==> s@[i + j] == pat@[j],
                !matched ==> !spec_starts_with(s@.subrange(i as int, s@.len() as int), pat@),
            decreases (if matched { 1int } else { 0int }), p - k,
        {
            if s.get_char(i + k) != pat.get_char(k) {
                matched = false;
                proof {
                    let tail = s@.subrange(i as int, s@.len() as int);
                    if spec_starts_with(tail, pat@) {
                        assert(tail.subrange(0, p as int)[k as int] == s@[i + k]);
                        assert(pat@[k as int] == s@[i + k]);
                    }
                }
            } else {
                k += 1;
            }
        }
        if matched {
            proof {
                let tail = s@.subrange(i as int, s@.len() as int);
                assert(tail.subrange(0, p as int) =~= pat@);
            }
            return Some(i);
        }
        i += 1;
    }
    proof {
        assert forall|q: int| from <= q <= s@.len() implies !spec_starts_with(
            s@.subrange(q, s@.len() as int),
            pat@,
        ) by {
            if q + p > n {
                assert(s@.subrange(q, s@.len() as int).len() < pat@.len());
            }
        }
    }
    None
}

/// The text between the first two metadata fences of `content`, blank
/// space trimmed: the front matter block, or nothing when no two fences
/// stand.  A leading byte-order mark is ignored.
pub open spec fn spec_front_matter(content: Seq<char>) -> Option<Seq<char>> {
    let s = if content.len() > 0 && content[0] == '\u{feff}' {
        content.subrange(1, content.len() as int)
    } else {
        content
    };
    let p1 = spec_find_str(s, "---"@);
    if p1 < 0 {
        None
    } else {
        let rest = s.subrange(p1 + 3, s.len() as int);
        let p2 = spec_find_str(rest, "---"@);
        if p2 < 0 {
            None
        } else {
            Some(spec_trim(rest.subrange(0, p2)))
        }
    }
}

/// Split off the front matter block of a resource file.
pub fn split_front_matter(content: &str) -> (r: Option<String>)
    ensures
        match r {
            Some(f) => spec_front_matter(content@) matches Some(v) && f@ == v,
            None => spec_front_matter(content@) is None,
        },
{
    proof {
        reveal_strlit("---");
    }
    let n = content.unicode_len();
    let s: &str = if n > 0 && content.get_char(0) == '\u{feff}' {
        content.substring_char(1, n)
    } else {
        content
    };
    let sn = s.unicode_len();
    let p1 = match find_str_from(s, "---", 0) {
        Some(i) => i,
        None => {
            proof {
                lemma_find_str_at(s@, "---"@, -1);
            }
            return None;
        },
    };
    proof {
        lemma_find_str_at(s@, "---"@, p1 as int);
    }
    let rest = s.substring_char(p1 + 3, sn);
    let rn = rest.unicode_len();
    let p2 = match find_str_from(rest, "---", 0) {
        Some(i) => i,
        None => {
            proof {
                lemma_find_str_at(rest@, "---"@, -1);
            }
            return None;
        },
    };
    proof {
        lemma_find_str_at(rest@, "---"@, p2 as int);
    }
    let between = rest.substring_char(0, p2);
    Some(trim_str(between))
}

} // verus!

verus! {

/// The first line of `lines` that opens with `key` and carries a
/// non-blank value after it; the value, trimmed.
pub open spec fn spec_key_line_value(lines: Seq<Seq<char>>, key: Seq<char>) -> Option<Seq<char>>
    decreases lines.len(),
{
    if lines.len() == 0 {
        None
    } else {
        let line = lines[0];
        if spec_starts_with(line, key) && spec_trim(
            line.subrange(key.len() as int, line.len() as int),
        ).len() > 0 {
            Some(spec_trim(line.subrange(key.len() as int, line.len() as int)))
        } else {
            spec_key_line_value(lines.subrange(1, lines.len() as int), key)
        }
    }
}

/// Scan the lines for a `key:` opener with a non-blank value.
pub fn key_line_value(lines: &Vec<String>, key: &str) -> (r: Option<String>)
    ensures
        match r {
            Some(v) => spec_key_line_value(lines.deep_view(), key@) == Some(v@),
            None => spec_key_line_value(lines.deep_view(), key@) is None,
        },
{
    let n = lines.len();
    let mut i: usize = 0;
    proof {
        assert(lines.deep_view().subrange(0, n as int) =~= lines.deep_view());
    }
    while i < n
        invariant
            i <= n,
            n == lines@.len(),
            spec_key_line_value(lines.deep_view(), key@) == spec_key_line_value(
                lines.deep_view().subrange(i as int, n as int),
                key@,
            ),
        decreases n - i,
    {
        let line = &lines[i];
        proof {
            assert(lines.deep_view().subrange(i as int, n as int)[0] == line@);
            assert(lines.deep_view().subrange(i as int, n as int).subrange(
                1,
                (n - i) as int,
            ) =~= lines.deep_view().subrange(i + 1, n as int));
        }
        if starts_with_str(line.as_str(), key) {
            let kl = key.unicode_len();
            let ln = line.as_str().unicode_len();
            let rest = line.as_str().substring_char(kl, ln);
            let v = trim_str(rest);
            if v.as_str().unicode_len() > 0 {
                return Some(v);
            }
        }
        i += 1;
    }
    None
}

/// Whether a top-level field opener stands at position `q` of `after`: a
/// line start followed by one of the stop patterns.
pub open spec fn spec_is_field_start(
    after: Seq<char>,
    q: int,
    pats: Seq<Seq<char>>,
) -> bool {
    &&& 0 <= q < after.len()
    &&& (q == 0 || after[q - 1] == '\n')
    &&& exists|k: int|
        0 <= k < pats.len() && spec_starts_with(
            after.subrange(q, after.len() as int),
            pats[k],
        )
}

/// The position where the description value ends: the first field opener
/// at or after `q`, or the end of the text.
pub open spec fn spec_field_scan(after: Seq<char>, q: int, pats: Seq<Seq<char>>) -> int
    decreases after.len() - q,
{
    if q < 0 || q >= after.len() {
        after.len() as int
    } else if spec_is_field_start(after, q, pats) {
        q
    } else {
        spec_field_scan(after, q + 1, pats)
    }
}

/// Find where the running description value is cut off by the next field.
pub fn field_scan(after: &str, pats: &Vec<&str>) -> (r: usize)
    ensures
        r == spec_field_scan(after@, 0, pats.deep_view()),
        r <= after@.len(),
{
    let n = after.unicode_len();
    let mut q: usize = 0;
    while q < n
        invariant
            q <= n,
            n == after@.len(),
            spec_field_scan(after@, 0, pats.deep_view()) == spec_field_scan(
                after@,
                q as int,
                pats.deep_view(),
            ),
        decreases n - q,
    {
        let at_line_start = q == 0 || after.get_char(q - 1) == '\n';
        let mut hit = false;
        if at_line_start {
            let tail = after.substring_char(q, n);
            let m = pats.len();
            let mut k: usize = 0;
            while k < m
                invariant
                    k <= m,
                    m == pats@.len(),
                    n == after@.len(),
                    tail@ == after@.subrange(q as int, n as int),
                    hit ==> spec_is_field_start(after@, q as int, pats.deep_view()),
                    !hit ==> forall|j: int|
                        0 <= j < k ==> !spec_starts_with(
                            after@.subrange(q as int, after@.len() as int),
                            pats.deep_view()[j],
                        ),
                    q < n,
                    q == 0 || after@[q - 1] == '\n',
                decreases m - k,
            {
                proof {
                    assert(pats.deep_view()[k as int] == pats@[k as int]@);
                }
                if starts_with_str(tail, pats[k]) {
                    hit = true;
                    proof {
                        assert(spec_starts_with(
                            after@.subrange(q as int, after@.len() as int),
                            pats.deep_view()[k as int],
                        ));
                    }
                }
                k += 1;
            }
        }
        if hit {
            return q;
        }
        proof {
            assert(!spec_is_field_start(after@, q as int, pats.deep_view()));
        }
        q += 1;
    }
    n
}

/// The trimmed lines of a multi-line value, joined by single blanks.
pub open spec fn spec_clean_join(parts: Seq<Seq<char>>) -> Seq<char>
    decreases parts.len(),
{
    if parts.len() == 0 {
        Seq::<char>::empty()
    } else if parts.len() == 1 {
        spec_trim(parts[0])
    } else {
        spec_trim(parts[0]) + seq![' '] + spec_clean_join(parts.subrange(1, parts.len() as int))
    }
}

/// Trim each line of a multi-line value and join them with blanks.
pub fn clean_join(parts: &Vec<String>) -> (r: String)
    ensures
        r@ == spec_clean_join(parts.deep_view()),
{
    let n = parts.len();
    let mut out = String::new();
    let mut i: usize = 0;
    proof {
        assert(parts.deep_view().subrange(0, n as int) =~= parts.deep_view());
    }
    while i < n
        invariant
            i <= n,
            n == parts@.len(),
            spec_clean_join(parts.deep_view()) =~= out@ + spec_clean_join(
                parts.deep_view().subrange(i as int, n as int),
            ),
        decreases n - i,
    {
        let ghost rest = parts.deep_view().subrange(i as int, n as int);
        proof {
            assert(rest[0] == parts.deep_view()[i as int]);
            assert(rest.subrange(1, rest.len() as int) =~= parts.deep_view().subrange(
                i + 1,
                n as int,
            ));
        }
        let t = trim_str(parts[i].as_str());
        out.append(t.as_str());
        if i + 1 < n {
            push_char(&mut out, ' ');
        }
        i += 1;
    }
    out
}

} // verus!

verus! {

/// A letter, digit or underscore.
pub open spec fn is_word_char(c: char) -> bool {
    (97 <= (c as u32) && (c as u32) <= 122) || (65 <= (c as u32) && (c as u32) <= 90) || (48 <= (
    c as u32) && (c as u32) <= 57) || c == '_'
}

/// The longest word-character prefix of `s`.
pub open spec fn spec_word_prefix(s: Seq<char>) -> Seq<char>
    decreases s.len(),
{
    if s.len() > 0 && is_word_char(s[0]) {
        seq![s[0]] + spec_word_prefix(s.subrange(1, s.len() as int))
    } else {
        Seq::<char>::empty()
    }
}

/// Take the longest word-character prefix of `s`.
pub fn word_prefix(s: &str) -> (r: String)
    ensures
        r@ == spec_word_prefix(s@),
{
    let n = s.unicode_len();
    let mut out = String::new();
    let mut i: usize = 0;
    proof {
        assert(s@.subrange(0, n as int) =~= s@);
    }
    while i < n
        invariant
            i <= n,
            n == s@.len(),
            spec_word_prefix(s@) =~= out@ + spec_word_prefix(s@.subrange(i as int, n as int)),
        decreases n - i,
    {
        let c = s.get_char(i);
        let ghost rest = s@.subrange(i as int, n as int);
        proof {
            assert(rest[0] == s@[i as int]);
            assert(rest.subrange(1, rest.len() as int) =~= s@.subrange(i + 1, n as int));
        }
        let code = c as u32;
        if (97 <= code && code <= 122) || (65 <= code && code <= 90) || (48 <= code && code
            <= 57) || c == '_' {
            push_char(&mut out, c);
        } else {
            return out;
        }
        i += 1;
    }
    out
}

/// The items of a block-style list: lines opening with a dash contribute
/// their trimmed value; a non-blank line that is neither an item nor a
/// comment ends the list.
pub open spec fn spec_block_items(lines: Seq<Seq<char>>) -> Seq<Seq<char>>
    decreases lines.len(),
{
    if lines.len() == 0 {
        Seq::<Seq<char>>::empty()
    } else {
        let rest = lines.subrange(1, lines.len() as int);
        let item = spec_trim(lines[0]);
        if spec_starts_with(item, "-"@) {
            let v = spec_trim(item.subrange(1, item.len() as int));
            (if v.len() > 0 {
                seq![v]
            } else {
                Seq::<Seq<char>>::empty()
            }) + spec_block_items(rest)
        } else if item.len() > 0 && !spec_starts_with(item, "#"@) {
            Seq::<Seq<char>>::empty()
        } else {
            spec_block_items(rest)
        }
    }
}

/// Collect the items of a block-style list, starting after the key line.
pub fn block_items(lines: &Vec<String>, start: usize) -> (r: Vec<String>)
    requires
        start <= lines@.len(),
    ensures
        r.deep_view() == spec_block_items(
            lines.deep_view().subrange(start as int, lines.deep_view().len() as int),
        ),
{
    proof {
        reveal_strlit("-");
        reveal_strlit("#");
    }
    let n = lines.len();
    let mut out: Vec<String> = Vec::new();
    let mut i: usize = start;
    while i < n
        invariant
            start <= i <= n,
            n == lines@.len(),
            spec_block_items(lines.deep_view().subrange(start as int, n as int)) =~= out.deep_view()
                + spec_block_items(lines.deep_view().subrange(i as int, n as int)),
        decreases n - i,
    {
        let ghost rest = lines.deep_view().subrange(i as int, n as int);
        proof {
            reveal_strlit("-");
            reveal_strlit("#");
            assert(rest[0] == lines.deep_view()[i as int]);
            assert(rest.subrange(1, rest.len() as int) =~= lines.deep_view().subrange(
                i + 1,
                n as int,
            ));
        }
        let item = trim_str(lines[i].as_str());
        if starts_with_str(item.as_str(), "-") {
            let ln = item.as_str().unicode_len();
            proof {
                assert(item@.len() >= "-"@.len());
            }
            let v = trim_str(item.as_str().substring_char(1, ln));
            if v.as_str().unicode_len() > 0 {
                let ghost prev = out.deep_view();
                out.push(v);
                proof {
                    assert(out.deep_view() =~= prev.push(out@[out@.len() - 1]@));
                }
            }
        } else if item.as_str().unicode_len() > 0 && !starts_with_str(item.as_str(), "#") {
            proof {
                assert(spec_block_items(rest) =~= Seq::<Seq<char>>::empty());
            }
            return out;
        }
        i += 1;
    }
    proof {
        assert(lines.deep_view().subrange(n as int, n as int) =~= Seq::<Seq<char>>::empty());
    }
    out
}

/// The non-blank trimmed items of a comma-separated list.
pub open spec fn spec_inline_items(parts: Seq<Seq<char>>) -> Seq<Seq<char>>
    decreases parts.len(),
{
    if parts.len() == 0 {
        Seq::<Seq<char>>::empty()
    } else {
        let v = spec_trim(parts[0]);
        (if v.len() > 0 {
            seq![v]
        } else {
            Seq::<Seq<char>>::empty()
        }) + spec_inline_items(parts.subrange(1, parts.len() as int))
    }
}

/// Trim the items of a comma-separated list and drop the blank ones.
pub fn inline_items(parts: &Vec<String>) -> (r: Vec<String>)
    ensures
        r.deep_view() == spec_inline_items(parts.deep_view()),
{
    let n = parts.len();
    let mut out: Vec<String> = Vec::new();
    let mut i: usize = 0;
    proof {
        assert(parts.deep_view().subrange(0, n as int) =~= parts.deep_view());
    }
    while i < n
        invariant
            i <= n,
            n == parts@.len(),
            spec_inline_items(parts.deep_view()) =~= out.deep_view() + spec_inline_items(
                parts.deep_view().subrange(i as int, n as int),
            ),
        decreases n - i,
    {
        let ghost rest = parts.deep_view().subrange(i as int, n as int);
        proof {
            assert(rest[0] == parts.deep_view()[i as int]);
            assert(rest.subrange(1, rest.len() as int) =~= parts.deep_view().subrange(
                i + 1,
                n as int,
            ));
        }
        let v = trim_str(parts[i].as_str());
        if v.as_str().unicode_len() > 0 {
            let ghost prev = out.deep_view();
            out.push(v);
            proof {
                assert(out.deep_view() =~= prev.push(out@[out@.len() - 1]@));
            }
        }
        i += 1;
    }
    out
}

/// The running description value of a metadata block: the text after the
/// first `description:` up to the next field opener, its lines trimmed
/// and joined.
pub open spec fn spec_fb_description(
    front: Seq<char>,
    pats: Seq<Seq<char>>,
) -> Option<Seq<char>> {
    let p = spec_find_str(front, "description:"@);
    if p < 0 {
        None
    } else {
        let after = front.subrange(p + 12, front.len() as int);
        let end = spec_field_scan(after, 0, pats);
        let v = spec_trim(after.subrange(0, end));
        if v.len() == 0 {
            None
        } else {
            Some(spec_trim(spec_clean_join(spec_split(v, '\n'))))
        }
    }
}

/// Extract the description leniently.
pub fn fallback_description(front: &str, pats: &Vec<&str>) -> (r: Option<String>)
    ensures
        match r {
            Some(v) => spec_fb_description(front@, pats.deep_view()) == Some(v@),
            None => spec_fb_description(front@, pats.deep_view()) is None,
        },
{
    proof {
        reveal_strlit("description:");
    }
    let p = match find_str_from(front, "description:", 0) {
        Some(i) => i,
        None => {
            proof {
                lemma_find_str_at(front@, "description:"@, -1);
            }
            return None;
        },
    };
    proof {
        lemma_find_str_at(front@, "description:"@, p as int);
    }
    let n = front.unicode_len();
    let after = front.substring_char(p + 12, n);
    let end = field_scan(after, pats);
    let v = trim_str(after.substring_char(0, end));
    if v.as_str().unicode_len() == 0 {
        return None;
    }
    let lines = split_str(v.as_str(), '\n');
    let joined = clean_join(&lines);
    Some(trim_str(joined.as_str()))
}

/// The tool list of a metadata block, leniently: after the key, either a
/// block-style list on the following lines or a comma-separated list on
/// the same line.
pub open spec fn spec_fb_tools(front: Seq<char>, key: Seq<char>) -> Option<Seq<Seq<char>>> {
    let p = spec_find_str(front, key);
    if p < 0 {
        None
    } else {
        let after = front.subrange(p + key.len(), front.len() as int);
        let lines = spec_split(after, '\n');
        if spec_trim(lines[0]).len() == 0 {
            let items = spec_block_items(lines.subrange(1, lines.len() as int));
            if items.len() > 0 {
                Some(items)
            } else {
                None
            }
        } else {
            let items = spec_inline_items(spec_split(lines[0], ','));
            if items.len() > 0 {
                Some(items)
            } else {
                None
            }
        }
    }
}

/// Extract the tool list leniently.
pub fn fallback_tools(front: &str, key: &str) -> (r: Option<Vec<String>>)
    ensures
        match r {
            Some(v) => spec_fb_tools(front@, key@) == Some(v.deep_view()),
            None => spec_fb_tools(front@, key@) is None,
        },
{
    let p = match find_str_from(front, key, 0) {
        Some(i) => i,
        None => {
            proof {
                lemma_find_str_at(front@, key@, -1);
            }
            return None;
        },
    };
    proof {
        lemma_find_str_at(front@, key@, p as int);
    }
    let n = front.unicode_len();
    let kl = key.unicode_len();
    let after = front.substring_char(p + kl, n);
    let lines = split_str(after, '\n');
    proof {
        assert(lines.deep_view().len() > 0) by {
            assert(spec_split(after@, '\n').len() > 0);
        }
        assert(lines.deep_view()[0] == lines@[0]@);
    }
    let first = trim_str(lines[0].as_str());
    if first.as_str().unicode_len() == 0 {
        let items = block_items(&lines, 1);
        if items.len() > 0 {
            Some(items)
        } else {
            None
        }
    } else {
        let parts = split_str(lines[0].as_str(), ',');
        let items = inline_items(&parts);
        if items.len() > 0 {
            Some(items)
        } else {
            None
        }
    }
}

/// The model named in a metadata block, leniently: the word following the
/// first `model:` line opener that carries one.
pub open spec fn spec_fb_model(lines: Seq<Seq<char>>) -> Option<Seq<char>>
    decreases lines.len(),
{
    if lines.len() == 0 {
        None
    } else {
        let line = lines[0];
        if spec_starts_with(line, "model:"@) && spec_word_prefix(
            spec_trim(line.subrange(6, line.len() as int)),
        ).len() > 0 {
            Some(spec_word_prefix(spec_trim(line.subrange(6, line.len() as int))))
        } else {
            spec_fb_model(lines.subrange(1, lines.len() as int))
        }
    }
}

/// Extract the model name leniently.
pub fn fallback_model(lines: &Vec<String>) -> (r: Option<String>)
    ensures
        match r {
            Some(v) => spec_fb_model(lines.deep_view()) == Some(v@),
            None => spec_fb_model(lines.deep_view()) is None,
        },
{
    proof {
        reveal_strlit("model:");
    }
    let n = lines.len();
    let mut i: usize = 0;
    proof {
        assert(lines.deep_view().subrange(0, n as int) =~= lines.deep_view());
    }
    while i < n
        invariant
            i <= n,
            n == lines@.len(),
            spec_fb_model(lines.deep_view()) == spec_fb_model(
                lines.deep_view().subrange(i as int, n as int),
            ),
        decreases n - i,
    {
        let line = &lines[i];
        proof {
            reveal_strlit("model:");
            assert(lines.deep_view().subrange(i as int, n as int)[0] == line@);
            assert(lines.deep_view().subrange(i as int, n as int).subrange(
                1,
                (n - i) as int,
            ) =~= lines.deep_view().subrange(i + 1, n as int));
        }
        if starts_with_str(line.as_str(), "model:") {
            let ln = line.as_str().unicode_len();
            proof {
                assert(line@.len() >= "model:"@.len());
            }
            let v = trim_str(line.as_str().substring_char(6, ln));
            let w = word_prefix(v.as_str());
            if w.as_str().unicode_len() > 0 {
                return Some(w);
            }
        }
        i += 1;
    }
    None
}

} // verus!

verus! {

/// An optional string carries exactly the given optional characters.
pub open spec fn opt_str_is(o: Option<String>, v: Option<Seq<char>>) -> bool {
    match o {
        Some(s) => v == Some(s@),
        None => v is None,
    }
}

/// An optional string list carries exactly the given optional items.
pub open spec fn opt_list_is(o: Option<Vec<String>>, v: Option<Seq<Seq<char>>>) -> bool {
    match o {
        Some(s) => v == Some(s.deep_view()),
        None => v is None,
    }
}

/// The metadata fields of a slash command's file, as the two-stage parse
/// yields them: name, description, category, tool list.
pub open spec fn spec_command_meta(content: Seq<char>) -> (
    Option<Seq<char>>,
    Option<Seq<char>>,
    Option<Seq<char>>,
    Option<Seq<Seq<char>>>,
) {
    match spec_front_matter(content) {
        None => (None, None, None, None),
        Some(front) => if yaml_ok(front) {
            (
                yaml_str_field(front, "name"@),
                yaml_str_field(front, "description"@),
                yaml_str_field(front, "category"@),
                yaml_list_field(front, "allowedTools"@),
            )
        } else {
            (
                spec_key_line_value(spec_split(front, '\n'), "name:"@),
                spec_fb_description(front, cmd_stop_patterns()),
                spec_key_line_value(spec_split(front, '\n'), "category:"@),
                spec_fb_tools(front, "allowed_tools:"@),
            )
        },
    }
}

/// The metadata fields of a prompt agent's file: name, description,
/// model, tool list.
pub open spec fn spec_agent_meta(content: Seq<char>) -> (
    Option<Seq<char>>,
    Option<Seq<char>>,
    Option<Seq<char>>,
    Option<Seq<Seq<char>>>,
) {
    match spec_agent_front(content) {
        None => (None, None, None, None),
        Some(front) => if yaml_ok(front) {
            (
                yaml_str_field(front, "name"@),
                yaml_str_field(front, "description"@),
                yaml_str_field(front, "model"@),
                yaml_list_field(front, "tools"@),
            )
        } else {
            (
                spec_key_line_value(spec_split(front, '\n'), "name:"@),
                spec_fb_description(front, agent_stop_patterns()),
                spec_fb_model(spec_split(front, '\n')),
                spec_fb_tools(front, "tools:"@),
            )
        },
    }
}

/// The field openers that end a running command description.
pub open spec fn cmd_stop_patterns() -> Seq<Seq<char>> {
    seq!["name:"@, "category:"@, "allowed_tools:"@, "mcp_servers:"@, "personas:"@]
}

/// The field openers that end a running agent description.
pub open spec fn agent_stop_patterns() -> Seq<Seq<char>> {
    seq!["name:"@, "model:"@, "tools:"@, "color:"@]
}

/// Parse the front matter of a slash command: the strict stage reads the
/// named fields from the YAML block; when the block is not valid YAML,
/// the lenient extractor takes over.  A file without front matter yields
/// empty metadata.  The strict stage reads field by field: in a
/// well-formed block a field of the wrong shape reads as absent, and
/// does not send the whole block to the lenient stage.
pub fn parse_command_metadata(content: &str) -> (r: CommandMetadata)
    ensures
        opt_str_is(r.name, spec_command_meta(content@).0),
        opt_str_is(r.description, spec_command_meta(content@).1),
        opt_str_is(r.category, spec_command_meta(content@).2),
        opt_list_is(r.allowed_tools, spec_command_meta(content@).3),
{
    let front = match split_front_matter(content) {
        Some(f) => f,
        None => {
            return CommandMetadata {
                name: None,
                description: None,
                category: None,
                allowed_tools: None,
            };
        },
    };
    if yaml_parse_ok(front.as_str()) {
        CommandMetadata {
            name: yaml_get_str(front.as_str(), "name"),
            description: yaml_get_str(front.as_str(), "description"),
            category: yaml_get_str(front.as_str(), "category"),
            allowed_tools: yaml_get_str_list(front.as_str(), "allowedTools"),
        }
    } else {
        let lines = split_str(front.as_str(), '\n');
        let mut pats: Vec<&str> = Vec::new();
        pats.push("name:");
        pats.push("category:");
        pats.push("allowed_tools:");
        pats.push("mcp_servers:");
        pats.push("personas:");
        proof {
            assert(pats.deep_view() =~= cmd_stop_patterns());
        }
        CommandMetadata {
            name: key_line_value(&lines, "name:"),
            description: fallback_description(front.as_str(), &pats),
            category: key_line_value(&lines, "category:"),
            allowed_tools: fallback_tools(front.as_str(), "allowed_tools:"),
        }
    }
}

/// The front matter block of an agent file: the file must open with a
/// fence, and the block runs to the next fence on a fresh line.
pub open spec fn spec_agent_front(content: Seq<char>) -> Option<Seq<char>> {
    if !spec_starts_with(content, "---"@) {
        None
    } else {
        let rest = content.subrange(3, content.len() as int);
        let p = spec_find_str(rest, "\n---"@);
        if p < 0 {
            None
        } else {
            Some(spec_trim(rest.subrange(0, p)))
        }
    }
}

/// Split off the front matter block of an agent file.
pub fn split_agent_front(content: &str) -> (r: Option<String>)
    ensures
        match r {
            Some(f) => spec_agent_front(content@) matches Some(v) && f@ == v,
            None => spec_agent_front(content@) is None,
        },
{
    proof {
        reveal_strlit("---");
        reveal_strlit("\n---");
    }
    if !starts_with_str(content, "---") {
        return None;
    }
    let n = content.unicode_len();
    let rest = content.substring_char(3, n);
    let rn = rest.unicode_len();
    let p = match find_str_from(rest, "\n---", 0) {
        Some(i) => i,
        None => {
            proof {
                lemma_find_str_at(rest@, "\n---"@, -1);
            }
            return None;
        },
    };
    proof {
        lemma_find_str_at(rest@, "\n---"@, p as int);
    }
    Some(trim_str(rest.substring_char(0, p)))
}

/// Parse the front matter of a prompt agent, strictly then leniently;
/// the strict stage reads field by field, as for commands.
pub fn parse_agent_metadata(content: &str) -> (r: AgentMetadata)
    ensures
        opt_str_is(r.name, spec_agent_meta(content@).0),
        opt_str_is(r.description, spec_agent_meta(content@).1),
        opt_str_is(r.model, spec_agent_meta(content@).2),
        opt_list_is(r.tools, spec_agent_meta(content@).3),
{
    let front = match split_agent_front(content) {
        Some(f) => f,
        None => {
            return AgentMetadata { name: None, description: None, model: None, tools: None };
        },
    };
    if yaml_parse_ok(front.as_str()) {
        AgentMetadata {
            name: yaml_get_str(front.as_str(), "name"),
            description: yaml_get_str(front.as_str(), "description"),
            model: yaml_get_str(front.as_str(), "model"),
            tools: yaml_get_str_list(front.as_str(), "tools"),
        }
    } else {
        let lines = split_str(front.as_str(), '\n');
        let mut pats: Vec<&str> = Vec::new();
        pats.push("name:");
        pats.push("model:");
        pats.push("tools:");
        pats.push("color:");
        proof {
            assert(pats.deep_view() =~= agent_stop_patterns());
        }
        AgentMetadata {
            name: key_line_value(&lines, "name:"),
            description: fallback_description(front.as_str(), &pats),
            model: fallback_model(&lines),
            tools: fallback_tools(front.as_str(), "tools:"),
        }
    }
}

/// Parse the JSON document of an automation hook.  A document that is not
/// well-formed JSON is rejected; absent fields fall back to their
/// defaults, the rule array is kept as opaque text.
pub fn parse_hook_metadata(content: &str) -> (r: Result<
    crate::resources::HookFileMetadata,
    crate::errors::AppError,
>)
    ensures
        r is Ok <==> json_ok(content@),
        r matches Ok(m) ==> {
            &&& opt_str_is(m.name, json_str_field(content@, "name"@))
            &&& opt_str_is(m.description, json_str_field(content@, "description"@))
            &&& (match m.event_type {
                Some(e) => json_str_field(content@, "eventType"@) == Some(e.spec_name()),
                None => (match json_str_field(content@, "eventType"@) {
                    Some(s) => forall|e: HookEventType| e.spec_name() != s,
                    None => true,
                }),
            })
            &&& opt_str_is(m.rules_json, json_field_json(content@, "rules"@))
            &&& m.priority as int == (match json_int_field(content@, "priority"@) {
                Some(v) => if -0x8000_0000 <= v < 0x8000_0000 {
                    v
                } else {
                    100
                },
                None => 100,
            })
            &&& m.enabled == (match json_bool_field(content@, "enabled"@) {
                Some(b) => b,
                None => true,
            })
        },
{
    proof {
        reveal_strlit("hook file is not valid JSON");
    }
    if !json_parse_ok(content) {
        return Err(
            crate::errors::AppError::Parse(String::from_str("hook file is not valid JSON")),
        );
    }
    let event_type = match json_get_str(content, "eventType") {
        Some(s) => HookEventType::parse(s.as_str()),
        None => None,
    };
    let priority: i32 = match json_get_i64(content, "priority") {
        Some(v) => {
            if -0x8000_0000i64 <= v && v < 0x8000_0000i64 {
                v as i32
            } else {
                100
            }
        },
        None => 100,
    };
    let enabled = match json_get_bool(content, "enabled") {
        Some(b) => b,
        None => true,
    };
    Ok(
        crate::resources::HookFileMetadata {
            name: json_get_str(content, "name"),
            description: json_get_str(content, "description"),
            event_type,
            rules_json: json_get_field_text(content, "rules"),
            priority,
            enabled,
        },
    )
}

} // verus!
