//! Resource identifiers and their on-disk relative paths.
//!
//! An identifier is `namespace/filename` (or a bare `filename` at the root);
//! the relative path of a resource is its identifier followed by the kind's
//! file extension.  Both directions of the mapping are pure functions, and
//! the round-trip laws are proved here.

use vstd::prelude::*;

use crate::strutil::{
    concat_str, ends_with_str, push_char, rfind_char, spec_ends_with,
};

verus! {

/// Index of the last occurrence of `c` in `s`; `-1` when absent.
pub open spec fn spec_rfind(s: Seq<char>, c: char) -> int
    decreases s.len(),
{
    if s.len() == 0 {
        -1
    } else if s[s.len() - 1] == c {
        s.len() - 1
    } else {
        spec_rfind(s.subrange(0, s.len() - 1), c)
    }
}

/// A position followed by no occurrence of `c`, and holding one unless `-1`,
/// is exactly `spec_rfind`.
pub proof fn lemma_rfind_at(s: Seq<char>, c: char, i: int)
    requires
        -1 <= i < s.len(),
        forall|j: int| i < j < s.len() ==> s[j] != c,
        i >= 0 ==> s[i] == c,
    ensures
        spec_rfind(s, c) == i,
    decreases s.len(),
{
    if s.len() == 0 {
    } else if s[s.len() - 1] == c {
        assert(i == s.len() - 1);
    } else {
        let t = s.subrange(0, s.len() - 1);
        assert(forall|j: int| i < j < t.len() ==> t[j] != c);
        lemma_rfind_at(t, c, i);
    }
}

/// The namespace part of an identifier: everything before the last slash,
/// empty for a root-level identifier.
pub open spec fn spec_namespace_of(id: Seq<char>) -> Seq<char> {
    let i = spec_rfind(id, '/');
    if i < 0 {
        Seq::<char>::empty()
    } else {
        id.subrange(0, i)
    }
}

/// The filename part of an identifier: everything after the last slash.
pub open spec fn spec_filename_of(id: Seq<char>) -> Seq<char> {
    id.subrange(spec_rfind(id, '/') + 1, id.len() as int)
}

/// An identifier rebuilt from its parts.
pub open spec fn spec_join_id(ns: Seq<char>, name: Seq<char>) -> Seq<char> {
    if ns.len() == 0 {
        name
    } else {
        ns + seq!['/'] + name
    }
}

/// Split an identifier into `(namespace, filename)` at its last slash.
pub fn parse_id(id: &str) -> (r: (String, String))
    ensures
        r.0@ == spec_namespace_of(id@),
        r.1@ == spec_filename_of(id@),
{
    match rfind_char(id, '/') {
        Some(i) => {
            proof {
                lemma_rfind_at(id@, '/', i as int);
            }
            let n = id.unicode_len();
            let ns = id.substring_char(0, i);
            let name = id.substring_char(i + 1, n);
            (String::from_str(ns), String::from_str(name))
        },
        None => {
            proof {
                lemma_rfind_at(id@, '/', -1);
                assert(id@.subrange(0, id@.len() as int) =~= id@);
            }
            (String::new(), String::from_str(id))
        },
    }
}

/// Rebuild an identifier from a namespace and a filename.
pub fn join_id(ns: &str, name: &str) -> (r: String)
    ensures
        r@ == spec_join_id(ns@, name@),
{
    if ns.is_empty() {
        String::from_str(name)
    } else {
        let mut s = String::from_str(ns);
        push_char(&mut s, '/');
        s.append(name);
        assert(s@ =~= ns@ + seq!['/'] + name@);
        s
    }
}

/// Splitting an identifier and joining the parts gives the identifier back,
/// as long as the identifier does not begin with a slash.
pub proof fn lemma_join_parse_id(id: Seq<char>)
    requires
        id.len() > 0 ==> id[0] != '/',
    ensures
        spec_join_id(spec_namespace_of(id), spec_filename_of(id)) == id,
{
    let i = spec_rfind(id, '/');
    lemma_rfind_props(id, '/');
    if i < 0 {
        assert(id.subrange(0, id.len() as int) =~= id);
    } else {
        assert(i != 0);
        assert(id.subrange(0, i) + seq!['/'] + id.subrange(i + 1, id.len() as int) =~= id);
    }
}

/// Joining a namespace and a slash-free filename and splitting again gives
/// the parts back.
pub proof fn lemma_parse_join_id(ns: Seq<char>, name: Seq<char>)
    requires
        forall|j: int| 0 <= j < name.len() ==> name[j] != '/',
    ensures
        spec_namespace_of(spec_join_id(ns, name)) == ns,
        spec_filename_of(spec_join_id(ns, name)) == name,
{
    let id = spec_join_id(ns, name);
    if ns.len() == 0 {
        lemma_rfind_at(id, '/', -1);
        assert(id.subrange(0, id.len() as int) =~= id);
    } else {
        assert(id[ns.len() as int] == '/');
        assert(forall|j: int| ns.len() < j < id.len() ==> id[j] != '/');
        lemma_rfind_at(id, '/', ns.len() as int);
        assert(id.subrange(0, ns.len() as int) =~= ns);
        assert(id.subrange(ns.len() as int + 1, id.len() as int) =~= name);
    }
}

/// `spec_rfind` points at the last occurrence of `c`, or at `-1`.
pub proof fn lemma_rfind_props(s: Seq<char>, c: char)
    ensures
        -1 <= spec_rfind(s, c) < s.len(),
        spec_rfind(s, c) >= 0 ==> s[spec_rfind(s, c)] == c,
        forall|j: int| spec_rfind(s, c) < j < s.len() ==> s[j] != c,
    decreases s.len(),
{
    if s.len() > 0 && s[s.len() - 1] != c {
        let t = s.subrange(0, s.len() - 1);
        lemma_rfind_props(t, c);
        assert forall|j: int| spec_rfind(s, c) < j < s.len() implies s[j] != c by {
            if j < s.len() - 1 {
                assert(t[j] == s[j]);
            }
        }
    }
}

/// The relative path of an identifier: the identifier, a dot, the extension.
pub open spec fn spec_id_to_path(id: Seq<char>, ext: Seq<char>) -> Seq<char> {
    id + seq!['.'] + ext
}

/// The identifier of a relative path: the path with a trailing
/// `.<extension>` removed and every backslash replaced by a slash.
pub open spec fn spec_path_to_id(path: Seq<char>, ext: Seq<char>) -> Seq<char> {
    let stem = if spec_ends_with(path, seq!['.'] + ext) {
        path.subrange(0, path.len() - ext.len() - 1)
    } else {
        path
    };
    stem.map(|i: int, c: char| if c == '\\' { '/' } else { c })
}

/// Turn an identifier into its relative path under the kind's root.
pub fn id_to_relative_path(id: &str, ext: &str) -> (r: String)
    ensures
        r@ == spec_id_to_path(id@, ext@),
{
    let mut s = String::from_str(id);
    push_char(&mut s, '.');
    s.append(ext);
    assert(s@ =~= id@ + seq!['.'] + ext@);
    s
}

/// Turn a relative path back into an identifier.
pub fn relative_path_to_id(path: &str, ext: &str) -> (r: String)
    ensures
        r@ == spec_path_to_id(path@, ext@),
{
    let mut suffix = String::new();
    push_char(&mut suffix, '.');
    suffix.append(ext);
    assert(suffix@ =~= seq!['.'] + ext@);
    let stem: &str = if ends_with_str(path, suffix.as_str()) {
        let n = path.unicode_len();
        let sl = suffix.as_str().unicode_len();
        path.substring_char(0, n - sl)
    } else {
        path
    };
    let ghost stem_spec = stem@;
    let mut out = String::new();
    let n = stem.unicode_len();
    let mut i: usize = 0;
    while i < n
        invariant
            i <= n,
            n == stem_spec.len(),
            stem@ == stem_spec,
            out@ =~= stem_spec.subrange(0, i as int).map(
                |k: int, c: char| if c == '\\' { '/' } else { c },
            ),
        decreases n - i,
    {
        let c = stem.get_char(i);
        if c == '\\' {
            push_char(&mut out, '/');
        } else {
            push_char(&mut out, c);
        }
        assert(stem_spec.subrange(0, i + 1) =~= stem_spec.subrange(0, i as int).push(
            stem_spec[i as int],
        ));
        assert(out@ =~= stem_spec.subrange(0, i + 1).map(
            |k: int, c: char| if c == '\\' { '/' } else { c },
        ));
        i += 1;
    }
    assert(stem_spec.subrange(0, n as int) =~= stem_spec);
    out
}

/// Identifier to path to identifier is the identity on every
/// backslash-free identifier.
pub proof fn lemma_path_round_trip(id: Seq<char>, ext: Seq<char>)
    requires
        forall|j: int| 0 <= j < id.len() ==> id[j] != '\\',
        forall|j: int| 0 <= j < ext.len() ==> ext[j] != '\\',
    ensures
        spec_path_to_id(spec_id_to_path(id, ext), ext) == id,
{
    let path = spec_id_to_path(id, ext);
    assert(path.subrange(path.len() - ext.len() - 1, path.len() as int) =~= seq!['.'] + ext);
    assert(spec_ends_with(path, seq!['.'] + ext));
    let stem = path.subrange(0, path.len() - ext.len() - 1);
    assert(stem =~= id);
    assert(stem.map(|i: int, c: char| if c == '\\' { '/' } else { c }) =~= id);
}

/// Path to identifier to path is the identity on every backslash-free path
/// carrying the kind's extension.
pub proof fn lemma_id_round_trip(path: Seq<char>, ext: Seq<char>)
    requires
        spec_ends_with(path, seq!['.'] + ext),
        forall|j: int| 0 <= j < path.len() ==> path[j] != '\\',
    ensures
        spec_id_to_path(spec_path_to_id(path, ext), ext) == path,
{
    let stem = path.subrange(0, path.len() - ext.len() - 1);
    let id = spec_path_to_id(path, ext);
    assert(id =~= stem);
    let suf = seq!['.'] + ext;
    assert(path.subrange(path.len() - suf.len(), path.len() as int) == suf);
    assert forall|j: int| 0 <= j < path.len() implies (id + seq!['.'] + ext)[j] == path[j] by {
        if j >= stem.len() {
            let k = j - (path.len() - suf.len());
            assert(suf[k] == path.subrange(path.len() - suf.len(), path.len() as int)[k]);
        }
    }
    assert(id + seq!['.'] + ext =~= path);
}

} // verus!
