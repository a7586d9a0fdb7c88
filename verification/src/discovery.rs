//! Remote discovery.
//!
//! A repository snapshot arrives as a flat list of file paths with their
//! text.  The engine strips the archive's root folder, locates every
//! directory named after the kind up to a bounded depth, takes its parent
//! directory's name as the namespace, parses every eligible file inside
//! into a discoverable resource, deduplicates the results by
//! case-insensitive identifier with the first occurrence winning, and
//! sorts them by case-insensitive name.  Which repositories are fetched
//! and which are served from the time-boxed cache is decided here too.

use vstd::prelude::*;

use crate::database::CacheTable;
use crate::parse::{parse_agent_metadata, parse_command_metadata, parse_hook_metadata};
use crate::resources::{
    DiscoverableResource, HookEventType, RepoWithMeta, ResourceType,
};
use crate::strutil::{
    eq_str, push_char, seq_le, spec_ends_with, spec_split, spec_starts_with, split_str,
    str_le,
};

verus! {

/// One file of a repository snapshot.
#[derive(Clone, Debug)]
pub struct RepoFile {
    pub path: String,
    pub content: String,
}

/// What `str::to_lowercase` returns: a function of the characters alone.
pub uninterp spec fn lower_of(s: Seq<char>) -> Seq<char>;

/// Relies on `str::to_lowercase`: the result depends on the characters
/// alone, and an empty text stays empty.
#[verifier::external_body]
fn lowercase(s: &str) -> (r: String)
    ensures
        r@ == lower_of(s@),
        s@.len() == 0 ==> r@.len() == 0,
{
    s.to_lowercase()
}

/// Index of the first segment equal to `root`; `-1` when absent.
pub open spec fn spec_root_pos(segs: Seq<Seq<char>>, root: Seq<char>) -> int
    decreases segs.len(),
{
    if segs.len() == 0 {
        -1
    } else if segs[0] == root {
        0
    } else {
        let r = spec_root_pos(segs.subrange(1, segs.len() as int), root);
        if r < 0 {
            -1
        } else {
            1 + r
        }
    }
}

/// Segments joined by slashes.
pub open spec fn spec_join_slash(parts: Seq<Seq<char>>) -> Seq<char>
    decreases parts.len(),
{
    if parts.len() == 0 {
        Seq::<char>::empty()
    } else if parts.len() == 1 {
        parts[0]
    } else {
        parts[0] + seq!['/'] + spec_join_slash(parts.subrange(1, parts.len() as int))
    }
}

/// Whether a snapshot path names a resource file of `kind`: its segments
/// hold the kind's directory name at bounded depth with the file below
/// it, no segment is hidden, the file carries the kind's extension, and
/// its basename is none of the known non-resource files.
pub open spec fn spec_eligible(kind: ResourceType, path: Seq<char>) -> bool {
    let segs = spec_split(path, '/');
    let s = spec_root_pos(segs, kind.spec_root_dir());
    &&& 0 <= s <= 3
    &&& s < segs.len() - 1
    &&& spec_ends_with(segs.last(), seq!['.'] + kind.spec_extension())
    &&& segs.last().len() > kind.spec_extension().len() + 1
    &&& (forall|i: int|
        0 <= i < segs.len() ==> (#[trigger] segs[i]).len() > 0 && segs[i][0] != '.')
    &&& !spec_skipped_name(kind, segs.last())
}

/// The basenames never read as resources.
pub open spec fn spec_skipped_name(kind: ResourceType, name: Seq<char>) -> bool {
    kind.spec_extension() == "md"@ && (name == "README.md"@ || name == "LICENSE.md"@ || name
        == "CHANGELOG.md"@ || name == "CONTRIBUTING.md"@)
}

/// The namespace of an eligible path: the segment before the kind
/// directory, empty at the snapshot root.
pub open spec fn spec_path_namespace(kind: ResourceType, path: Seq<char>) -> Seq<char> {
    let segs = spec_split(path, '/');
    let s = spec_root_pos(segs, kind.spec_root_dir());
    if s == 0 {
        Seq::<char>::empty()
    } else {
        segs[s - 1]
    }
}

/// The file part of an eligible path's identifier: the segments below
/// the kind directory joined by slashes, without the extension.
pub open spec fn spec_path_filename(kind: ResourceType, path: Seq<char>) -> Seq<char> {
    let segs = spec_split(path, '/');
    let s = spec_root_pos(segs, kind.spec_root_dir());
    crate::ident::spec_path_to_id(
        spec_join_slash(segs.subrange(s + 1, segs.len() as int)),
        kind.spec_extension(),
    )
}

/// The identifier of an eligible path.
pub open spec fn spec_path_id(kind: ResourceType, path: Seq<char>) -> Seq<char> {
    crate::ident::spec_join_id(
        spec_path_namespace(kind, path),
        spec_path_filename(kind, path),
    )
}


/// Whether `x` occurs among `s`.
pub open spec fn spec_res_listed(s: Seq<DiscoverableResource>, x: DiscoverableResource) -> bool {
    exists|j: int| 0 <= j < s.len() && s[j] == x
}

/// Whether some resource of `s` carries the case-folded key `kl`.
pub open spec fn spec_key_lower_listed(s: Seq<DiscoverableResource>, kl: Seq<char>) -> bool {
    exists|k: int| 0 <= k < s.len() && lower_of(s[k].key@) == kl
}

/// Whether `x` is the first resource of `s` with its case-folded key:
/// deduplication keeps exactly these.
pub open spec fn spec_first_with_key(s: Seq<DiscoverableResource>, x: DiscoverableResource) -> bool {
    exists|j: int|
        0 <= j < s.len() && s[j] == x && (forall|j2: int|
            0 <= j2 < j ==> lower_of((#[trigger] s[j2]).key@) != lower_of(x.key@))
}

/// Whether `res` reads off some eligible file of `files`.
pub open spec fn spec_discovered_from(
    files: Seq<RepoFile>,
    kind: ResourceType,
    res: DiscoverableResource,
) -> bool {
    exists|j: int|
        0 <= j < files.len() && spec_eligible(kind, (#[trigger] files[j]).path@) && res.key@
            == spec_path_id(kind, files[j].path@) && res.namespace@ == spec_path_namespace(
            kind,
            files[j].path@,
        ) && res.filename@ == spec_path_filename(kind, files[j].path@) && (
        res.source_path matches Some(sp) && sp@ == files[j].path@)
}

/// Whether some resource of `s` reads off the file at `path`.
pub open spec fn spec_path_covered(s: Seq<DiscoverableResource>, path: Seq<char>) -> bool {
    exists|k: int|
        0 <= k < s.len() && ((#[trigger] s[k]).source_path matches Some(sp) && sp@ == path)
}

/// Classify one snapshot path: the namespace, file part and identifier
/// of an eligible resource file, or nothing.
fn classify_file(kind: &ResourceType, path: &str) -> (r: Option<(String, String, String)>)
    ensures
        r is Some <==> spec_eligible(*kind, path@),
        r matches Some(t) ==> t.0@ == spec_path_namespace(*kind, path@) && t.1@
            == spec_path_filename(*kind, path@) && t.2@ == spec_path_id(*kind, path@),
{
    proof {
        reveal_strlit("README.md");
        reveal_strlit("LICENSE.md");
        reveal_strlit("CHANGELOG.md");
        reveal_strlit("CONTRIBUTING.md");
        reveal_strlit("md");
        reveal_strlit("json");
    }
    let segs = split_str(path, '/');
    let n = segs.len();
    let ghost segv = spec_split(path@, '/');
    proof {
        assert(segs.deep_view() == segv);
        assert(n == segv.len());
    }
    // locate the kind directory among the leading segments
    let root = kind.root_dir();
    let mut s: usize = 0;
    let mut found = false;
    while s < n && !found
        invariant
            s <= n,
            n == segv.len(),
            segv == spec_split(path@, '/'),
            segs.deep_view() == segv,
            n == segs@.len(),
            found ==> s < n && segv[s as int] == kind.spec_root_dir(),
            forall|j: int| 0 <= j < s ==> segv[j] != kind.spec_root_dir(),
            root@ == kind.spec_root_dir(),
        decreases n - s, (if found { 0int } else { 1int }),
    {
        proof {
            assert(segs.deep_view()[s as int] == segs@[s as int]@);
        }
        if eq_str(segs[s].as_str(), root) {
            found = true;
        } else {
            s += 1;
        }
    }
    proof {
        if found {
            lemma_root_pos_at(segv, kind.spec_root_dir(), s as int);
        } else {
            lemma_root_pos_at(segv, kind.spec_root_dir(), -1);
        }
    }
    if !found || s > 3 || s + 1 >= n {
        return None;
    }
    // the path must stay visible: no hidden segment anywhere
    let mut i: usize = 0;
    while i < n
        invariant
            i <= n,
            n == segv.len(),
            segv == spec_split(path@, '/'),
            segs.deep_view() == segv,
            n == segs@.len(),
            forall|j: int| 0 <= j < i ==> (#[trigger] segv[j]).len() > 0 && segv[j][0] != '.',
        decreases n - i,
    {
        proof {
            assert(segs.deep_view()[i as int] == segs@[i as int]@);
        }
        let seg = &segs[i];
        if seg.as_str().is_empty() || seg.as_str().get_char(0) == '.' {
            proof {
                assert(segv[i as int].len() == 0 || (segv[i as int].len() > 0 && segv[
                i as int][0] == '.'));
            }
            return None;
        }
        i += 1;
    }
    // the basename must carry the extension and not be a known non-resource
    let mut suffix = String::new();
    push_char(&mut suffix, '.');
    suffix.append(kind.extension());
    proof {
        assert(suffix@ =~= seq!['.'] + kind.spec_extension());
        assert(segs.deep_view()[n - 1] == segs@[n - 1]@);
        assert(segv.last() == segv[n - 1]);
    }
    let base = &segs[n - 1];
    if !crate::strutil::ends_with_str(base.as_str(), suffix.as_str()) {
        return None;
    }
    if base.as_str().unicode_len() <= suffix.as_str().unicode_len() {
        return None;
    }
    let skipped = eq_str(kind.extension(), "md") && (eq_str(base.as_str(), "README.md")
        || eq_str(base.as_str(), "LICENSE.md") || eq_str(base.as_str(), "CHANGELOG.md")
        || eq_str(base.as_str(), "CONTRIBUTING.md"));
    if skipped {
        return None;
    }
    // namespace: the segment before the kind directory
    let namespace = if s == 0 {
        String::new()
    } else {
        proof {
            assert(segs.deep_view()[s - 1] == segs@[s - 1]@);
        }
        segs[s - 1].clone()
    };
    // file part: the segments below the kind directory, joined
    let mut joined = String::new();
    let mut j: usize = s + 1;
    proof {
        assert(spec_join_slash(segv.subrange(s + 1, n as int)) =~= joined@ + spec_join_slash(
            segv.subrange(s + 1, n as int),
        ));
    }
    while j < n
        invariant
            s + 1 <= j <= n,
            n == segv.len(),
            segv == spec_split(path@, '/'),
            segs.deep_view() == segv,
            n == segs@.len(),
            spec_join_slash(segv.subrange(s + 1, n as int)) =~= joined@ + spec_join_slash(
                segv.subrange(j as int, n as int),
            ),
        decreases n - j,
    {
        let ghost rest = segv.subrange(j as int, n as int);
        proof {
            assert(segs.deep_view()[j as int] == segs@[j as int]@);
            assert(rest[0] == segv[j as int]);
            assert(rest.subrange(1, rest.len() as int) =~= segv.subrange(j + 1, n as int));
        }
        joined.append(segs[j].as_str());
        if j + 1 < n {
            push_char(&mut joined, '/');
        }
        j += 1;
    }
    proof {
        assert(spec_join_slash(segv.subrange(n as int, n as int)) =~= Seq::<char>::empty());
    }
    let filename = crate::ident::relative_path_to_id(joined.as_str(), kind.extension());
    let id = crate::ident::join_id(namespace.as_str(), filename.as_str());
    proof {
        assert(spec_eligible(*kind, path@));
    }
    Some((namespace, filename, id))
}

/// A position preceded by no root segment, and holding one unless `-1`,
/// is exactly `spec_root_pos`.
proof fn lemma_root_pos_at(segs: Seq<Seq<char>>, root: Seq<char>, i: int)
    requires
        -1 <= i < segs.len(),
        i >= 0 ==> segs[i] == root,
        forall|j: int| 0 <= j < i || (i == -1 && 0 <= j < segs.len()) ==> segs[j] != root,
    ensures
        spec_root_pos(segs, root) == i,
    decreases segs.len(),
{
    if segs.len() == 0 {
    } else if segs[0] == root {
        assert(i == 0);
    } else {
        let t = segs.subrange(1, segs.len() as int);
        assert(forall|j: int| 0 <= j < i - 1 ==> t[j] != root);
        if i == -1 {
            assert(forall|j: int| 0 <= j < t.len() ==> t[j] != root);
            lemma_root_pos_at(t, root, -1);
        } else {
            lemma_root_pos_at(t, root, i - 1);
        }
    }
}

/// Scan a rooted snapshot for the resources of one kind.  Every eligible
/// file yields one discoverable resource carrying the repository's
/// coordinates, its own path, and metadata parsed from its text; nothing
/// else is yielded.
pub fn scan_repo_files(
    kind: &ResourceType,
    files: &Vec<RepoFile>,
    repo: &RepoWithMeta,
) -> (r: Vec<DiscoverableResource>)
    ensures
        forall|k: int|
            0 <= k < r@.len() ==> spec_discovered_from(files@, *kind, #[trigger] r@[k]),
        forall|k: int|
            0 <= k < r@.len() ==> (#[trigger] r@[k]).repo_owner@ == repo.owner@
                && r@[k].repo_name@ == repo.name@ && r@[k].repo_branch@ == repo.branch@,
        forall|j: int|
            0 <= j < files@.len() && spec_eligible(*kind, (#[trigger] files@[j]).path@)
                ==> spec_path_covered(r@, files@[j].path@),
{
    let n = files.len();
    let mut out: Vec<DiscoverableResource> = Vec::new();
    let mut i: usize = 0;
    while i < n
        invariant
            i <= n,
            n == files@.len(),
            forall|k: int|
                0 <= k < out@.len() ==> spec_discovered_from(files@, *kind, #[trigger] out@[k]),
            forall|k: int|
                0 <= k < out@.len() ==> (#[trigger] out@[k]).repo_owner@ == repo.owner@
                    && out@[k].repo_name@ == repo.name@ && out@[k].repo_branch@
                    == repo.branch@,
            forall|j: int|
                0 <= j < i && spec_eligible(*kind, (#[trigger] files@[j]).path@)
                    ==> spec_path_covered(out@, files@[j].path@),
        decreases n - i,
    {
        let file = &files[i];
        match classify_file(kind, file.path.as_str()) {
            Some((namespace, filename, id)) => {
                let mut name = filename.clone();
                let mut description = String::new();
                let mut category: Option<String> = None;
                let mut event_type = HookEventType::PreToolUse;
                let mut rules_json = String::new();
                match kind {
                    ResourceType::Command => {
                        let meta = parse_command_metadata(file.content.as_str());
                        if let Some(v) = meta.name {
                            name = v;
                        }
                        if let Some(v) = meta.description {
                            description = v;
                        }
                        category = meta.category;
                    },
                    ResourceType::Agent => {
                        let meta = parse_agent_metadata(file.content.as_str());
                        if let Some(v) = meta.name {
                            name = v;
                        }
                        if let Some(v) = meta.description {
                            description = v;
                        }
                    },
                    ResourceType::Hook => {
                        match parse_hook_metadata(file.content.as_str()) {
                            Ok(meta) => {
                                if let Some(v) = meta.name {
                                    name = v;
                                }
                                if let Some(v) = meta.description {
                                    description = v;
                                }
                                if let Some(e) = meta.event_type {
                                    event_type = e;
                                }
                                if let Some(v) = meta.rules_json {
                                    rules_json = v;
                                }
                            },
                            Err(_) => {},
                        }
                    },
                    ResourceType::Skill => {},
                }
                let ghost prev = out@;
                out.push(
                    DiscoverableResource {
                        key: id,
                        name,
                        description,
                        namespace,
                        filename,
                        category,
                        event_type,
                        rules_json,
                        readme_url: None,
                        repo_owner: repo.owner.clone(),
                        repo_name: repo.name.clone(),
                        repo_branch: repo.branch.clone(),
                        source_path: Some(file.path.clone()),
                    },
                );
                proof {
                    assert(out@[out@.len() - 1].key@ == spec_path_id(
                        *kind,
                        files@[i as int].path@,
                    ));
                    assert(spec_eligible(*kind, files@[i as int].path@));
                    assert(spec_discovered_from(files@, *kind, out@[out@.len() - 1])) by {
                        assert(files@[i as int] == files@[i as int]);
                    }
                    assert forall|k: int|
                        0 <= k < out@.len() implies spec_discovered_from(
                        files@,
                        *kind,
                        #[trigger] out@[k],
                    ) by {
                        if k < out@.len() - 1 {
                            assert(out@[k] == prev[k]);
                        }
                    }
                    assert forall|j: int|
                        0 <= j < i + 1 && spec_eligible(
                            *kind,
                            (#[trigger] files@[j]).path@,
                        ) implies spec_path_covered(out@, files@[j].path@) by {
                        if j < i {
                            let k = choose|k: int|
                                0 <= k < prev.len() && ((#[trigger] prev[k]).source_path
                                    matches Some(sp) && sp@ == files@[j].path@);
                            assert(out@[k] == prev[k]);
                        } else {
                            assert((out@[out@.len() - 1].source_path matches Some(sp) && sp@
                                == files@[j].path@));
                        }
                    }
                }
            },
            None => {},
        }
        i += 1;
    }
    out
}

/// Drop the resources whose case-insensitive identifier was already
/// seen, the first occurrence winning.
pub fn deduplicate_resources(list: Vec<DiscoverableResource>) -> (r: Vec<DiscoverableResource>)
    ensures
        forall|a: int, b: int|
            0 <= a < b < r@.len() ==> lower_of((#[trigger] r@[a]).key@) != lower_of(
                (#[trigger] r@[b]).key@,
            ),
        forall|k: int| 0 <= k < r@.len() ==> spec_first_with_key(list@, #[trigger] r@[k]),
        forall|j: int|
            0 <= j < list@.len() ==> spec_key_lower_listed(
                r@,
                lower_of((#[trigger] list@[j]).key@),
            ),
{
    let mut source = list;
    let ghost pre = source@;
    let n = source.len();
    let mut out: Vec<DiscoverableResource> = Vec::new();
    let mut i: usize = 0;
    while i < n
        invariant
            i <= n,
            n == pre.len(),
            source@ =~= pre.subrange(i as int, n as int),
            forall|a: int, b: int|
                0 <= a < b < out@.len() ==> lower_of((#[trigger] out@[a]).key@) != lower_of(
                    (#[trigger] out@[b]).key@,
                ),
            forall|k: int| 0 <= k < out@.len() ==> spec_first_with_key(pre, #[trigger] out@[k]),
            forall|j: int|
                0 <= j < i ==> spec_key_lower_listed(
                    out@,
                    lower_of((#[trigger] pre[j]).key@),
                ),
        decreases n - i,
    {
        let e = source.remove(0);
        proof {
            assert(e == pre[i as int]);
            assert(source@ =~= pre.subrange(i + 1, n as int));
        }
        let key_lower = lowercase(e.key.as_str());
        let mut seen = false;
        let m = out.len();
        let mut k: usize = 0;
        while k < m
            invariant
                k <= m,
                m == out@.len(),
                key_lower@ == lower_of(e.key@),
                seen ==> (exists|k2: int|
                    0 <= k2 < out@.len() && lower_of((#[trigger] out@[k2]).key@) == lower_of(
                        e.key@,
                    )),
                !seen ==> forall|k2: int|
                    0 <= k2 < k ==> lower_of((#[trigger] out@[k2]).key@) != lower_of(e.key@),
            decreases m - k,
        {
            let other = lowercase(out[k].key.as_str());
            if eq_str(other.as_str(), key_lower.as_str()) {
                seen = true;
            }
            k += 1;
        }
        let ghost prev = out@;
        if !seen {
            out.push(e);
            proof {
                assert(out@[out@.len() - 1] == pre[i as int]);
                // every earlier occurrence of this folded key would stand
                // in `out` already, so this is the first one
                assert forall|j2: int|
                    0 <= j2 < i implies lower_of((#[trigger] pre[j2]).key@) != lower_of(
                    pre[i as int].key@,
                ) by {
                    if lower_of(pre[j2].key@) == lower_of(pre[i as int].key@) {
                        assert(spec_key_lower_listed(prev, lower_of(pre[j2].key@)));
                    }
                }
                assert(spec_first_with_key(pre, out@[out@.len() - 1]));
                assert forall|k: int|
                    0 <= k < out@.len() implies spec_first_with_key(
                    pre,
                    #[trigger] out@[k],
                ) by {
                    if k < out@.len() - 1 {
                        assert(out@[k] == prev[k]);
                    }
                }
                assert forall|k2: int|
                    0 <= k2 < out@.len() implies spec_res_listed(
                    pre,
                    #[trigger] out@[k2],
                ) by {
                    if k2 < out@.len() - 1 {
                        assert(out@[k2] == prev[k2]);
                    }
                }
                assert forall|j: int|
                    0 <= j < i + 1 implies spec_key_lower_listed(
                    out@,
                    lower_of((#[trigger] pre[j]).key@),
                ) by {
                    if j < i {
                        let k2 = choose|k2: int|
                            0 <= k2 < prev.len() && lower_of((#[trigger] prev[k2]).key@)
                                == lower_of(pre[j].key@);
                        assert(out@[k2] == prev[k2]);
                        assert(lower_of(out@[k2].key@) == lower_of(pre[j].key@));
                    } else {
                        assert(lower_of(out@[out@.len() - 1].key@) == lower_of(pre[j].key@));
                    }
                }
                assert forall|a: int, b: int|
                    0 <= a < b < out@.len() implies lower_of((#[trigger] out@[a]).key@)
                    != lower_of((#[trigger] out@[b]).key@) by {
                    if b < out@.len() - 1 {
                        assert(out@[a] == prev[a]);
                        assert(out@[b] == prev[b]);
                    } else {
                        assert(out@[a] == prev[a]);
                    }
                }
            }
        } else {
            proof {
                assert(spec_key_lower_listed(out@, lower_of(pre[i as int].key@)));
            }
        }
        i += 1;
    }
    proof {
        assert(pre =~= list@);
    }
    out
}

/// Sort the resources by case-insensitive name, ascending.
pub fn sort_by_name(list: Vec<DiscoverableResource>) -> (r: Vec<DiscoverableResource>)
    ensures
        forall|a: int, b: int|
            0 <= a < b < r@.len() ==> seq_le(
                lower_of((#[trigger] r@[a]).name@),
                lower_of((#[trigger] r@[b]).name@),
            ),
        r@.len() == list@.len(),
        forall|k: int| 0 <= k < r@.len() ==> spec_res_listed(list@, #[trigger] r@[k]),
        forall|j: int| 0 <= j < list@.len() ==> spec_res_listed(r@, #[trigger] list@[j]),
{
    let mut source = list;
    let ghost pre = source@;
    let n = source.len();
    let mut out: Vec<DiscoverableResource> = Vec::new();
    let mut i: usize = 0;
    while i < n
        invariant
            i <= n,
            n == pre.len(),
            source@ =~= pre.subrange(i as int, n as int),
            out@.len() == i,
            forall|a: int, b: int|
                0 <= a < b < out@.len() ==> seq_le(
                    lower_of((#[trigger] out@[a]).name@),
                    lower_of((#[trigger] out@[b]).name@),
                ),
            forall|k: int| 0 <= k < out@.len() ==> spec_res_listed(pre, #[trigger] out@[k]),
            forall|j: int| 0 <= j < i ==> spec_res_listed(out@, #[trigger] pre[j]),
        decreases n - i,
    {
        let e = source.remove(0);
        proof {
            assert(e == pre[i as int]);
            assert(source@ =~= pre.subrange(i + 1, n as int));
        }
        let e_lower = lowercase(e.name.as_str());
        let mut p: usize = 0;
        let m = out.len();
        let mut stop = false;
        while p < m && !stop
            invariant
                p <= m,
                m == out@.len(),
                e_lower@ == lower_of(e.name@),
                stop ==> p < m && !seq_le(lower_of(out@[p as int].name@), lower_of(e.name@)),
                forall|k: int|
                    0 <= k < p ==> seq_le(
                        lower_of((#[trigger] out@[k]).name@),
                        lower_of(e.name@),
                    ),
            decreases m - p, (if stop { 0int } else { 1int }),
        {
            let other = lowercase(out[p].name.as_str());
            if str_le(other.as_str(), e_lower.as_str()) {
                p += 1;
            } else {
                stop = true;
            }
        }
        let ghost prev = out@;
        out.insert(p, e);
        proof {
            assert(out@ =~= prev.subrange(0, p as int).push(e) + prev.subrange(
                p as int,
                prev.len() as int,
            ));
            assert forall|a: int, b: int|
                0 <= a < b < out@.len() implies seq_le(
                lower_of((#[trigger] out@[a]).name@),
                lower_of((#[trigger] out@[b]).name@),
            ) by {
                let a2 = if a < p { a } else { a - 1 };
                let b2 = if b < p { b } else { b - 1 };
                if a == p {
                    assert(out@[b] == prev[b2]);
                    assert(b2 >= p);
                    crate::strutil::lemma_seq_le_total(
                        lower_of(e.name@),
                        lower_of(prev[p as int].name@),
                    );
                    if b2 > p {
                        crate::strutil::lemma_seq_le_trans(
                            lower_of(e.name@),
                            lower_of(prev[p as int].name@),
                            lower_of(prev[b2].name@),
                        );
                    }
                } else if b == p {
                    assert(out@[a] == prev[a2]);
                } else {
                    assert(out@[a] == prev[a2]);
                    assert(out@[b] == prev[b2]);
                }
            }
            assert forall|j: int|
                0 <= j < i + 1 implies spec_res_listed(out@, #[trigger] pre[j]) by {
                if j < i {
                    let k = choose|k: int| 0 <= k < prev.len() && prev[k] == pre[j];
                    let k2 = if k < p { k } else { k + 1 };
                    assert(out@[k2] == prev[k]);
                } else {
                    assert(out@[p as int] == pre[j]);
                }
            }
            assert forall|k: int|
                0 <= k < out@.len() implies spec_res_listed(pre, #[trigger] out@[k]) by {
                let k2 = if k < p { k } else { k - 1 };
                if k == p {
                    assert(out@[k] == pre[i as int]);
                } else {
                    assert(out@[k] == prev[k2]);
                    assert(spec_res_listed(pre, prev[k2]));
                }
            }
        }
        i += 1;
    }
    proof {
        assert(pre =~= list@);
    }
    out
}

/// Which repositories a discovery pass fetches and which it serves from
/// cache: a disabled repository does neither; an enabled one is fetched
/// when a refresh is forced or its cache entry is missing or stale, and
/// served from cache otherwise.
pub fn plan_discovery(
    repos: &Vec<RepoWithMeta>,
    cache: &CacheTable,
    now: i64,
    force_refresh: bool,
) -> (r: (Vec<usize>, Vec<usize>))
    requires
        cache.wf(),
    ensures
        forall|k: int|
            0 <= k < r.0@.len() ==> (#[trigger] r.0@[k]) < repos@.len() && repos@[r.0@[k]
                as int].enabled,
        forall|k: int|
            0 <= k < r.1@.len() ==> (#[trigger] r.1@[k]) < repos@.len() && repos@[r.1@[k]
                as int].enabled && !force_refresh && cache.spec_has(
                repos@[r.1@[k] as int].owner@,
                repos@[r.1@[k] as int].name@,
                repos@[r.1@[k] as int].branch@,
            ) && !crate::database::spec_expired(
                cache.spec_at(
                    repos@[r.1@[k] as int].owner@,
                    repos@[r.1@[k] as int].name@,
                    repos@[r.1@[k] as int].branch@,
                ).scanned_at as int,
                now as int,
            ),
        forall|j: int|
            0 <= j < repos@.len() && (#[trigger] repos@[j]).enabled ==> (exists|k: int|
                0 <= k < r.0@.len() && r.0@[k] == j) || (exists|k: int|
                0 <= k < r.1@.len() && r.1@[k] == j),
{
    let n = repos.len();
    let mut fetch: Vec<usize> = Vec::new();
    let mut cached: Vec<usize> = Vec::new();
    let mut i: usize = 0;
    while i < n
        invariant
            i <= n,
            n == repos@.len(),
            cache.wf(),
            forall|k: int|
                0 <= k < fetch@.len() ==> (#[trigger] fetch@[k]) < repos@.len()
                    && repos@[fetch@[k] as int].enabled,
            forall|k: int|
                0 <= k < cached@.len() ==> (#[trigger] cached@[k]) < repos@.len()
                    && repos@[cached@[k] as int].enabled && !force_refresh && cache.spec_has(
                    repos@[cached@[k] as int].owner@,
                    repos@[cached@[k] as int].name@,
                    repos@[cached@[k] as int].branch@,
                ) && !crate::database::spec_expired(
                    cache.spec_at(
                        repos@[cached@[k] as int].owner@,
                        repos@[cached@[k] as int].name@,
                        repos@[cached@[k] as int].branch@,
                    ).scanned_at as int,
                    now as int,
                ),
            forall|j: int|
                0 <= j < i && (#[trigger] repos@[j]).enabled ==> (exists|k: int|
                    0 <= k < fetch@.len() && fetch@[k] == j) || (exists|k: int|
                    0 <= k < cached@.len() && cached@[k] == j),
        decreases n - i,
    {
        let repo = &repos[i];
        let ghost pf = fetch@;
        let ghost pc = cached@;
        if repo.enabled {
            if force_refresh {
                fetch.push(i);
            } else {
                match cache.get_cached(
                    repo.owner.as_str(),
                    repo.name.as_str(),
                    repo.branch.as_str(),
                    now,
                ) {
                    Some(_) => {
                        cached.push(i);
                    },
                    None => {
                        fetch.push(i);
                    },
                }
            }
        }
        proof {
            assert forall|j: int|
                0 <= j < i + 1 && (#[trigger] repos@[j]).enabled implies (exists|k: int|
                0 <= k < fetch@.len() && fetch@[k] == j) || (exists|k: int|
                0 <= k < cached@.len() && cached@[k] == j) by {
                if j < i {
                    if exists|k: int| 0 <= k < pf.len() && pf[k] == j {
                        let k = choose|k: int| 0 <= k < pf.len() && pf[k] == j;
                        assert(fetch@[k] == j);
                    } else {
                        let k = choose|k: int| 0 <= k < pc.len() && pc[k] == j;
                        assert(cached@[k] == j);
                    }
                } else {
                    if fetch@.len() > pf.len() {
                        assert(fetch@[fetch@.len() - 1] == j);
                    } else {
                        assert(cached@[cached@.len() - 1] == j);
                    }
                }
            }
        }
        i += 1;
    }
    (fetch, cached)
}

/// Whether `out` holds the stripped form of an entry at `path` with
/// `content` under `root`.
pub open spec fn spec_stripped_listed(
    out: Seq<RepoFile>,
    root: Seq<char>,
    path: Seq<char>,
    content: Seq<char>,
) -> bool {
    exists|k: int|
        0 <= k < out.len() && path == root + seq!['/'] + (#[trigger] out[k]).path@
            && out[k].content@ == content
}

/// Strip the archive's single root folder from a snapshot listing: the
/// root is everything before the first slash of the first entry; every
/// entry with something below the root yields its stripped form, and
/// entries outside the root or with nothing below it are dropped.
pub fn strip_archive_root(entries: Vec<RepoFile>) -> (r: Vec<RepoFile>)
    ensures
        entries@.len() == 0 ==> r@.len() == 0,
        forall|k: int|
            0 <= k < r@.len() ==> (exists|j: int|
                0 <= j < entries@.len() && (#[trigger] r@[k]).path@.len() > 0 && entries@[j].path@
                    =~= spec_archive_root(entries@) + seq!['/'] + r@[k].path@ && entries@[j]
                    .content@ == r@[k].content@),
        forall|j: int|
            0 <= j < entries@.len() && spec_starts_with(
                (#[trigger] entries@[j]).path@,
                spec_archive_root(entries@) + seq!['/'],
            ) && entries@[j].path@.len() > spec_archive_root(entries@).len() + 1
                ==> spec_stripped_listed(
                r@,
                spec_archive_root(entries@),
                entries@[j].path@,
                entries@[j].content@,
            ),
{
    if entries.len() == 0 {
        return Vec::new();
    }
    let first = &entries[0];
    let root_end = match crate::strutil::find_char(first.path.as_str(), '/') {
        Some(p) => {
            proof {
                crate::strutil::lemma_find_at(first.path@, '/', p as int);
            }
            p
        },
        None => {
            let l = first.path.as_str().unicode_len();
            proof {
                crate::strutil::lemma_find_at(first.path@, '/', l as int);
            }
            l
        },
    };
    let root = first.path.as_str().substring_char(0, root_end);
    proof {
        assert(root@ =~= spec_archive_root(entries@));
    }
    let mut prefix = String::from_str(root);
    push_char(&mut prefix, '/');
    assert(prefix@ =~= root@ + seq!['/']);
    let mut source = entries;
    let ghost pre = source@;
    let n = source.len();
    let mut out: Vec<RepoFile> = Vec::new();
    let mut i: usize = 0;
    while i < n
        invariant
            i <= n,
            n == pre.len(),
            pre.len() > 0,
            source@ =~= pre.subrange(i as int, n as int),
            prefix@ == spec_archive_root(pre) + seq!['/'],
            forall|k: int|
                0 <= k < out@.len() ==> (exists|j: int|
                    0 <= j < pre.len() && (#[trigger] out@[k]).path@.len() > 0 && pre[j].path@
                        =~= spec_archive_root(pre) + seq!['/'] + out@[k].path@ && pre[j]
                        .content@ == out@[k].content@),
            forall|j: int|
                0 <= j < i && spec_starts_with(
                    (#[trigger] pre[j]).path@,
                    spec_archive_root(pre) + seq!['/'],
                ) && pre[j].path@.len() > spec_archive_root(pre).len() + 1
                    ==> spec_stripped_listed(
                    out@,
                    spec_archive_root(pre),
                    pre[j].path@,
                    pre[j].content@,
                ),
        decreases n - i,
    {
        let e = source.remove(0);
        proof {
            assert(e == pre[i as int]);
            assert(source@ =~= pre.subrange(i + 1, n as int));
        }
        let ghost root = spec_archive_root(pre);
        let inside = crate::strutil::starts_with_str(e.path.as_str(), prefix.as_str());
        let ghost prev = out@;
        if inside {
            let pl = prefix.as_str().unicode_len();
            let el = e.path.as_str().unicode_len();
            if el > pl {
                let stripped = e.path.as_str().substring_char(pl, el);
                out.push(RepoFile { path: String::from_str(stripped), content: e.content });
                proof {
                    assert(pre[i as int].path@ =~= root + seq!['/'] + out@[out@.len()
                        - 1].path@);
                    assert(spec_stripped_listed(
                        out@,
                        root,
                        pre[i as int].path@,
                        pre[i as int].content@,
                    ));
                }
            }
        }
        proof {
            assert forall|j: int|
                0 <= j < i + 1 && spec_starts_with(
                    (#[trigger] pre[j]).path@,
                    root + seq!['/'],
                ) && pre[j].path@.len() > root.len() + 1 implies spec_stripped_listed(
                out@,
                root,
                pre[j].path@,
                pre[j].content@,
            ) by {
                if j < i {
                    let k = choose|k: int|
                        0 <= k < prev.len() && pre[j].path@ == root + seq!['/'] + (
                        #[trigger] prev[k]).path@ && prev[k].content@ == pre[j].content@;
                    assert(out@[k] == prev[k]);
                }
            }
        }
        i += 1;
    }
    out
}

/// The root folder of an archive listing: the first entry's path up to
/// its first slash.
pub open spec fn spec_archive_root(entries: Seq<RepoFile>) -> Seq<char> {
    let p = entries[0].path@;
    let i = crate::strutil::spec_find(p, '/');
    p.subrange(0, i as int)
}

} // verus!
