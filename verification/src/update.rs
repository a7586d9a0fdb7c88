//! Remote-update checking.
//!
//! The engine decides; the surrounding program performs the remote calls
//! and feeds their outcomes back.  A check compares the stored content
//! hash against the repository's current hash without re-downloading
//! content; a missing resource is retried once against the repository's
//! default branch before counting as deleted remotely; batch results are
//! aggregated so that one item's failure never aborts the batch.

use vstd::prelude::*;

use crate::errors::{GitHubApiError, RateLimitInfo};
use crate::hashing::{compute_hash, spec_content_hash};
use crate::strutil::{eq_str, push_char, seq_le, spec_starts_with, str_le};

verus! {

/// An entry of a repository tree listing: a path, whether it is a blob
/// or a tree, its object hash, and its size when reported.
#[derive(Clone, Debug)]
pub struct GitHubTreeEntry {
    pub path: String,
    pub entry_type: String,
    pub sha: String,
    pub size: Option<u64>,
}

/// A repository tree listing.
#[derive(Clone, Debug)]
pub struct GitHubTreeResponse {
    pub sha: String,
    pub tree: Vec<GitHubTreeEntry>,
    pub truncated: bool,
}

/// Repository metadata: the default branch.
#[derive(Clone, Debug)]
pub struct GitHubRepoInfo {
    pub default_branch: String,
}

/// The outcome of checking one resource for a remote update.
#[derive(Clone, Debug)]
pub struct UpdateCheckResult {
    pub id: String,
    pub has_update: bool,
    pub new_hash: Option<String>,
    pub commit_message: Option<String>,
    pub updated_at: Option<i64>,
    pub error: Option<String>,
    pub remote_deleted: bool,
}

/// The aggregate of a batch of update checks.
#[derive(Clone, Debug)]
pub struct BatchCheckResult {
    pub success_count: u32,
    pub failed_count: u32,
    pub update_count: u32,
    pub deleted_count: u32,
    pub results: Vec<UpdateCheckResult>,
}

/// The aggregate of a batch of update checks, without deletion counting.
#[derive(Clone, Debug)]
pub struct BatchUpdateCheckResult {
    pub success_count: u32,
    pub failed_count: u32,
    pub update_count: u32,
    pub results: Vec<UpdateCheckResult>,
}

/// Where a running batch check stands.
#[derive(Clone, Debug)]
pub struct UpdateCheckProgress {
    pub current: u32,
    pub total: u32,
    pub current_name: String,
}

/// The outcome of executing one update.
#[derive(Clone, Debug)]
pub struct UpdateExecuteResult {
    pub id: String,
    pub success: bool,
    pub error: Option<String>,
}

/// The aggregate of a batch of executed updates.
#[derive(Clone, Debug)]
pub struct BatchUpdateResult {
    pub success_count: u32,
    pub failed_count: u32,
    pub results: Vec<UpdateExecuteResult>,
}

/// The outcome of updating one skill, with the new hash.
#[derive(Clone, Debug)]
pub struct SkillUpdateResult {
    pub id: String,
    pub success: bool,
    pub new_hash: Option<String>,
    pub error: Option<String>,
}

/// The outcome of updating one slash command, with the new hash.
#[derive(Clone, Debug)]
pub struct CommandUpdateResult {
    pub id: String,
    pub success: bool,
    pub new_hash: Option<String>,
    pub error: Option<String>,
}

/// The outcome of updating one prompt agent, with the new hash.
#[derive(Clone, Debug)]
pub struct AgentUpdateResult {
    pub id: String,
    pub success: bool,
    pub new_hash: Option<String>,
    pub error: Option<String>,
}

/// What the remote hash lookup came back with.
#[derive(Clone, Debug)]
pub enum RemoteHashOutcome {
    /// The resource's current remote hash.
    Found(String),
    /// The resource or branch does not exist remotely.
    NotFound,
    /// The lookup failed.
    Failed(GitHubApiError),
}

/// A resource with no repository coordinates or source path was imported
/// locally and supports no update check.
pub fn local_resource_result(id: &str) -> (r: UpdateCheckResult)
    ensures
        r.id@ == id@,
        !r.has_update,
        r.new_hash is None,
        r.error is Some,
        !r.remote_deleted,
{
    proof {
        reveal_strlit("locally imported resources support no update check");
    }
    UpdateCheckResult {
        id: String::from_str(id),
        has_update: false,
        new_hash: None,
        commit_message: None,
        updated_at: None,
        error: Some(String::from_str("locally imported resources support no update check")),
        remote_deleted: false,
    }
}

/// Decide one update check from the remote lookup's outcome: an unchanged
/// remote hash means no update; a changed one means an update carrying
/// the new hash; a missing resource counts as deleted remotely; a failed
/// lookup carries its error and decides nothing.
pub fn evaluate_remote_hash(
    id: &str,
    stored_hash: Option<&String>,
    outcome: &RemoteHashOutcome,
) -> (r: UpdateCheckResult)
    ensures
        r.id@ == id@,
        r.commit_message is None,
        r.updated_at is None,
        (outcome matches RemoteHashOutcome::Found(h) ==> {
            &&& r.has_update == !(stored_hash matches Some(s) && s@ == h@)
            &&& (r.has_update ==> (r.new_hash matches Some(nh) && nh@ == h@))
            &&& (!r.has_update ==> r.new_hash is None)
            &&& r.error is None
            &&& !r.remote_deleted
        }),
        (outcome is NotFound ==> !r.has_update && r.new_hash is None && r.error is None
            && r.remote_deleted),
        (outcome matches RemoteHashOutcome::Failed(e) ==> !r.has_update && r.new_hash is None
            && (r.error matches Some(m) && m@ == e.spec_message()) && !r.remote_deleted),
{
    match outcome {
        RemoteHashOutcome::Found(h) => {
            let unchanged = match stored_hash {
                Some(s) => eq_str(s.as_str(), h.as_str()),
                None => false,
            };
            UpdateCheckResult {
                id: String::from_str(id),
                has_update: !unchanged,
                new_hash: if unchanged {
                    None
                } else {
                    Some(h.clone())
                },
                commit_message: None,
                updated_at: None,
                error: None,
                remote_deleted: false,
            }
        },
        RemoteHashOutcome::NotFound => UpdateCheckResult {
            id: String::from_str(id),
            has_update: false,
            new_hash: None,
            commit_message: None,
            updated_at: None,
            error: None,
            remote_deleted: true,
        },
        RemoteHashOutcome::Failed(e) => UpdateCheckResult {
            id: String::from_str(id),
            has_update: false,
            new_hash: None,
            commit_message: None,
            updated_at: None,
            error: Some(e.message()),
            remote_deleted: false,
        },
    }
}

/// Fill in the latest commit message and time on a check that found an
/// update.
pub fn attach_commit_info(result: &mut UpdateCheckResult, message: String, updated_at: i64)
    requires
        old(result).has_update,
    ensures
        *final(result) == (UpdateCheckResult {
            commit_message: Some(message),
            updated_at: Some(updated_at),
            ..*old(result)
        }),
{
    result.commit_message = Some(message);
    result.updated_at = Some(updated_at);
}

/// Where a not-found lookup goes next: when the repository's default
/// branch is known and differs from the branch just tried, retry there.
/// `None` only means no retry is possible here: the caller treats a
/// missing default branch as a deleted resource, and surfaces any other
/// lookup failure as the check's error.
pub fn retry_branch(current: &str, default_branch: &Result<String, GitHubApiError>) -> (r:
    Option<String>)
    ensures
        match r {
            Some(b) => (default_branch matches Ok(d) && d@ == b@) && b@ != current@,
            None => !(default_branch matches Ok(d) && d@ != current@),
        },
{
    match default_branch {
        Ok(d) => {
            if eq_str(d.as_str(), current) {
                None
            } else {
                Some(d.clone())
            }
        },
        Err(_) => None,
    }
}

/// How many results report no error.
pub open spec fn count_success(s: Seq<UpdateCheckResult>) -> nat
    decreases s.len(),
{
    if s.len() == 0 {
        0
    } else {
        count_success(s.drop_last()) + (if s.last().error is None {
            1nat
        } else {
            0nat
        })
    }
}

/// How many results report an error.
pub open spec fn count_failed(s: Seq<UpdateCheckResult>) -> nat
    decreases s.len(),
{
    if s.len() == 0 {
        0
    } else {
        count_failed(s.drop_last()) + (if s.last().error is Some {
            1nat
        } else {
            0nat
        })
    }
}

/// How many results report an update.
pub open spec fn count_updates(s: Seq<UpdateCheckResult>) -> nat
    decreases s.len(),
{
    if s.len() == 0 {
        0
    } else {
        count_updates(s.drop_last()) + (if s.last().has_update {
            1nat
        } else {
            0nat
        })
    }
}

/// How many results report a remote deletion.
pub open spec fn count_deleted(s: Seq<UpdateCheckResult>) -> nat
    decreases s.len(),
{
    if s.len() == 0 {
        0
    } else {
        count_deleted(s.drop_last()) + (if s.last().remote_deleted {
            1nat
        } else {
            0nat
        })
    }
}

/// Aggregate a batch of update checks: one item's failure only counts,
/// never aborts the batch.
pub fn summarize_batch(results: Vec<UpdateCheckResult>) -> (r: BatchCheckResult)
    requires
        results@.len() <= 0xFFFF_FFFF,
    ensures
        r.results == results,
        r.success_count == count_success(results@),
        r.failed_count == count_failed(results@),
        r.update_count == count_updates(results@),
        r.deleted_count == count_deleted(results@),
{
    let n = results.len();
    let mut success: u32 = 0;
    let mut failed: u32 = 0;
    let mut updates: u32 = 0;
    let mut deleted: u32 = 0;
    let mut i: usize = 0;
    proof {
        assert(results@.subrange(0, 0) =~= Seq::<UpdateCheckResult>::empty());
    }
    while i < n
        invariant
            i <= n,
            n == results@.len(),
            n <= 0xFFFF_FFFF,
            success == count_success(results@.subrange(0, i as int)),
            failed == count_failed(results@.subrange(0, i as int)),
            updates == count_updates(results@.subrange(0, i as int)),
            deleted == count_deleted(results@.subrange(0, i as int)),
            success <= i && failed <= i && updates <= i && deleted <= i,
        decreases n - i,
    {
        proof {
            assert(results@.subrange(0, i + 1).drop_last() =~= results@.subrange(0, i as int));
            assert(results@.subrange(0, i + 1).last() == results@[i as int]);
        }
        if results[i].error.is_none() {
            success += 1;
        } else {
            failed += 1;
        }
        if results[i].has_update {
            updates += 1;
        }
        if results[i].remote_deleted {
            deleted += 1;
        }
        i += 1;
    }
    proof {
        assert(results@.subrange(0, n as int) =~= results@);
    }
    BatchCheckResult {
        success_count: success,
        failed_count: failed,
        update_count: updates,
        deleted_count: deleted,
        results,
    }
}

/// The numeric value of a decimal digit sequence, folded left to right.
pub open spec fn spec_digits_value(s: Seq<char>) -> int
    decreases s.len(),
{
    if s.len() == 0 {
        0
    } else {
        spec_digits_value(s.drop_last()) * 10 + (s.last() as u32 - 48)
    }
}

/// Every character is a decimal digit.
pub open spec fn spec_all_digits(s: Seq<char>) -> bool {
    forall|j: int| 0 <= j < s.len() ==> 48 <= (#[trigger] s[j] as u32) <= 57
}

/// What the standard unsigned decimal parse yields on `s`: the value of
/// the digits after an optional plus sign, or nothing when a character is
/// no digit, no digit stands at all, or the value does not fit.
pub open spec fn spec_u32_of(s: Seq<char>) -> Option<int> {
    let digits = if s.len() > 0 && s[0] == '+' {
        s.subrange(1, s.len() as int)
    } else {
        s
    };
    if digits.len() > 0 && spec_all_digits(digits) && spec_digits_value(digits) <= 0xFFFF_FFFF {
        Some(spec_digits_value(digits))
    } else {
        None
    }
}

/// Parse an unsigned decimal number, as the standard library's integer
/// parser reads it: optional leading plus sign, at least one digit, no
/// other characters, value within range.
pub fn parse_u32(s: &str) -> (r: Option<u32>)
    ensures
        match r {
            Some(v) => ({
                let digits = if s@.len() > 0 && s@[0] == '+' {
                    s@.subrange(1, s@.len() as int)
                } else {
                    s@
                };
                digits.len() > 0 && spec_all_digits(digits) && v as int == spec_digits_value(
                    digits,
                )
            }),
            None => ({
                let digits = if s@.len() > 0 && s@[0] == '+' {
                    s@.subrange(1, s@.len() as int)
                } else {
                    s@
                };
                digits.len() == 0 || !spec_all_digits(digits) || spec_digits_value(digits)
                    > 0xFFFF_FFFF
            }),
        },
{
    let n = s.unicode_len();
    let start: usize = if n > 0 && s.get_char(0) == '+' {
        1
    } else {
        0
    };
    if start >= n {
        return None;
    }
    let ghost digits = if s@.len() > 0 && s@[0] == '+' {
        s@.subrange(1, s@.len() as int)
    } else {
        s@
    };
    let mut value: u64 = 0;
    let mut i: usize = start;
    proof {
        assert(digits.subrange(0, 0) =~= Seq::<char>::empty());
    }
    while i < n
        invariant
            start <= i <= n,
            n == s@.len(),
            start == (if s@.len() > 0 && s@[0] == '+' {
                1int
            } else {
                0int
            }),
            digits == (if s@.len() > 0 && s@[0] == '+' {
                s@.subrange(1, s@.len() as int)
            } else {
                s@
            }),
            spec_all_digits(digits.subrange(0, i - start)),
            value <= 0xFFFF_FFFF,
            value as int == spec_digits_value(digits.subrange(0, i - start)),
        decreases n - i,
    {
        let c = s.get_char(i);
        let code = c as u32;
        proof {
            assert(digits[i - start] == s@[i as int]);
            assert(digits.subrange(0, i - start + 1).drop_last() =~= digits.subrange(
                0,
                i - start,
            ));
            assert(digits.subrange(0, i - start + 1).last() == digits[i - start]);
        }
        if code < 48 || code > 57 {
            proof {
                assert(!spec_all_digits(digits));
            }
            return None;
        }
        let next: u64 = value * 10 + ((code - 48) as u64);
        if next > 0xFFFF_FFFFu64 {
            proof {
                lemma_digits_monotone(digits, i - start + 1);
            }
            return None;
        }
        value = next;
        proof {
            assert forall|j: int| 0 <= j < i - start + 1 implies 48 <= (
            #[trigger] digits.subrange(0, i - start + 1)[j] as u32) <= 57 by {
                if j < i - start {
                    assert(digits.subrange(0, i - start)[j] == digits.subrange(
                        0,
                        i - start + 1,
                    )[j]);
                }
            }
        }
        i += 1;
    }
    proof {
        assert(digits.subrange(0, n - start) =~= digits);
    }
    Some(value as u32)
}

/// A longer digit prefix never has a smaller value.
proof fn lemma_digits_monotone(digits: Seq<char>, k: int)
    requires
        0 < k <= digits.len(),
    ensures
        spec_digits_value(digits) >= spec_digits_value(digits.subrange(0, k)) || !spec_all_digits(
            digits,
        ),
    decreases digits.len() - k,
{
    if k == digits.len() {
        assert(digits.subrange(0, k) =~= digits);
    } else {
        lemma_digits_monotone(digits, k + 1);
        if spec_all_digits(digits) {
            assert(digits.subrange(0, k + 1).drop_last() =~= digits.subrange(0, k));
            assert(48 <= (digits[k] as u32) <= 57);
            assert(spec_digits_value(digits.subrange(0, k + 1)) >= spec_digits_value(
                digits.subrange(0, k),
            )) by {
                assert(spec_digits_value(digits.subrange(0, k)) >= 0) by {
                    lemma_digits_nonneg(digits.subrange(0, k));
                }
            }
        }
    }
}

/// A digit sequence's value is never negative.
proof fn lemma_digits_nonneg(s: Seq<char>)
    ensures
        !spec_all_digits(s) || spec_digits_value(s) >= 0,
    decreases s.len(),
{
    if s.len() > 0 {
        lemma_digits_nonneg(s.drop_last());
        if spec_all_digits(s) {
            assert(spec_all_digits(s.drop_last())) by {
                assert(forall|j: int|
                    0 <= j < s.len() - 1 ==> (#[trigger] s.drop_last()[j]) == s[j]);
            }
        }
    }
}

/// Read the three rate-limit response headers into a quota report: one
/// is owed exactly when all three headers are present and parse as
/// decimal values, and it carries those values.
pub fn parse_rate_limit(
    remaining: Option<&String>,
    limit: Option<&String>,
    reset_at: Option<&String>,
) -> (r: Option<RateLimitInfo>)
    ensures
        r is Some <==> (remaining matches Some(s) && spec_u32_of(s@) is Some) && (
        limit matches Some(s) && spec_u32_of(s@) is Some) && (reset_at matches Some(s)
            && spec_u32_of(s@) is Some),
        r matches Some(info) ==> Some(info.remaining as int) == spec_u32_of(remaining->0@)
            && Some(info.limit as int) == spec_u32_of(limit->0@) && Some(info.reset_at as int)
            == spec_u32_of(reset_at->0@),
{
    let remaining = match remaining {
        Some(s) => match parse_u32(s.as_str()) {
            Some(v) => v,
            None => {
                return None;
            },
        },
        None => {
            return None;
        },
    };
    let limit = match limit {
        Some(s) => match parse_u32(s.as_str()) {
            Some(v) => v,
            None => {
                return None;
            },
        },
        None => {
            return None;
        },
    };
    let reset_at = match reset_at {
        Some(s) => match parse_u32(s.as_str()) {
            Some(v) => v as i64,
            None => {
                return None;
            },
        },
        None => {
            return None;
        },
    };
    Some(RateLimitInfo { remaining, limit, reset_at })
}

} // verus!

verus! {

/// Whether a tree entry is a content blob.
pub open spec fn spec_is_blob(e: GitHubTreeEntry) -> bool {
    e.entry_type@ == "blob"@
}

/// The concatenation of the hashes of `entries` picked by `order`.
pub open spec fn spec_concat_shas(entries: Seq<GitHubTreeEntry>, order: Seq<int>) -> Seq<char>
    decreases order.len(),
{
    if order.len() == 0 {
        Seq::<char>::empty()
    } else {
        entries[order[0]].sha@ + spec_concat_shas(entries, order.subrange(1, order.len() as int))
    }
}

/// `order` enumerates exactly the blob entries of `entries`, each once,
/// with paths in ascending order.
pub open spec fn spec_blob_order(entries: Seq<GitHubTreeEntry>, order: Seq<int>) -> bool {
    &&& (forall|a: int, b: int| 0 <= a < b < order.len() ==> order[a] != order[b])
    &&& (forall|k: int|
        0 <= k < order.len() ==> 0 <= #[trigger] order[k] < entries.len() && spec_is_blob(
            entries[order[k]],
        ))
    &&& (forall|j: int|
        0 <= j < entries.len() && spec_is_blob(#[trigger] entries[j]) ==> (exists|k: int|
            0 <= k < order.len() && order[k] == j))
    &&& (forall|a: int, b: int|
        0 <= a < b < order.len() ==> seq_le(entries[order[a]].path@, entries[order[b]].path@))
}

/// The blob entries of a tree listing, as indexes sorted by path.
fn sorted_blob_indexes(entries: &Vec<GitHubTreeEntry>) -> (r: Vec<usize>)
    ensures
        spec_blob_order(entries@, r@.map_values(|v: usize| v as int)),
        r@.len() > 0 <==> exists|j: int|
            0 <= j < entries@.len() && spec_is_blob(#[trigger] entries@[j]),
{
    proof {
        reveal_strlit("blob");
    }
    let n = entries.len();
    let mut out: Vec<usize> = Vec::new();
    let mut i: usize = 0;
    while i < n
        invariant
            i <= n,
            n == entries@.len(),
            forall|a: int, b: int| 0 <= a < b < out@.len() ==> out@[a] != out@[b],
            forall|k: int|
                0 <= k < out@.len() ==> (#[trigger] out@[k]) < i && spec_is_blob(
                    entries@[out@[k] as int],
                ),
            forall|j: int|
                0 <= j < i && spec_is_blob(#[trigger] entries@[j]) ==> (exists|k: int|
                    0 <= k < out@.len() && out@[k] == j),
            forall|a: int, b: int|
                0 <= a < b < out@.len() ==> seq_le(
                    entries@[out@[a] as int].path@,
                    entries@[out@[b] as int].path@,
                ),
        decreases n - i,
    {
        if eq_str(entries[i].entry_type.as_str(), "blob") {
            let mut p: usize = 0;
            let m = out.len();
            while p < m && str_le(
                entries[out[p]].path.as_str(),
                entries[i].path.as_str(),
            )
                invariant
                    p <= m,
                    m == out@.len(),
                    i < n,
                    n == entries@.len(),
                    forall|k: int| 0 <= k < out@.len() ==> (#[trigger] out@[k]) < i,
                    forall|k: int|
                        0 <= k < p ==> seq_le(
                            entries@[out@[k] as int].path@,
                            entries@[i as int].path@,
                        ),
                decreases m - p,
            {
                p += 1;
            }
            let ghost prev = out@;
            out.insert(p, i);
            proof {
                assert(out@ =~= prev.subrange(0, p as int).push(i as usize) + prev.subrange(
                    p as int,
                    prev.len() as int,
                ));
                assert forall|a: int, b: int|
                    0 <= a < b < out@.len() implies out@[a] != out@[b] by {
                    let a2 = if a < p { a } else { a - 1 };
                    let b2 = if b < p { b } else { b - 1 };
                    if a == p {
                        assert(out@[b] == prev[b2]);
                    } else if b == p {
                        assert(out@[a] == prev[a2]);
                    } else {
                        assert(out@[a] == prev[a2]);
                        assert(out@[b] == prev[b2]);
                    }
                }
                assert forall|a: int, b: int|
                    0 <= a < b < out@.len() implies seq_le(
                    entries@[out@[a] as int].path@,
                    entries@[out@[b] as int].path@,
                ) by {
                    let a2 = if a < p { a } else { a - 1 };
                    let b2 = if b < p { b } else { b - 1 };
                    if a == p {
                        assert(out@[b] == prev[b2]);
                        assert(b2 >= p);
                        crate::strutil::lemma_seq_le_total(
                            entries@[i as int].path@,
                            entries@[prev[p as int] as int].path@,
                        );
                        if b2 > p {
                            crate::strutil::lemma_seq_le_trans(
                                entries@[i as int].path@,
                                entries@[prev[p as int] as int].path@,
                                entries@[prev[b2] as int].path@,
                            );
                        }
                    } else if b == p {
                        assert(out@[a] == prev[a2]);
                    } else {
                        assert(out@[a] == prev[a2]);
                        assert(out@[b] == prev[b2]);
                    }
                }
                assert forall|j: int|
                    0 <= j < i + 1 && spec_is_blob(#[trigger] entries@[j]) implies (
                exists|k: int| 0 <= k < out@.len() && out@[k] == j) by {
                    if j < i {
                        let k = choose|k: int| 0 <= k < prev.len() && prev[k] == j;
                        let k2 = if k < p { k } else { k + 1 };
                        assert(out@[k2] == j);
                    } else {
                        assert(out@[p as int] == j);
                    }
                }
            }
        }
        i += 1;
    }
    proof {
        let os = out@.map_values(|v: usize| v as int);
        assert(os.len() == out@.len());
        assert forall|k: int| 0 <= k < os.len() implies #[trigger] os[k] == out@[k] as int by {}
        assert forall|a: int, b: int| 0 <= a < b < os.len() implies os[a] != os[b] by {
            assert(out@[a] != out@[b]);
        }
        assert forall|k: int|
            0 <= k < os.len() implies 0 <= #[trigger] os[k] < entries@.len() && spec_is_blob(
            entries@[os[k]],
        ) by {
            assert(spec_is_blob(entries@[out@[k] as int]));
        }
        assert forall|j: int|
            0 <= j < entries@.len() && spec_is_blob(#[trigger] entries@[j]) implies (
        exists|k: int| 0 <= k < os.len() && os[k] == j) by {
            let k = choose|k: int| 0 <= k < out@.len() && out@[k] == j;
            assert(os[k] == j);
        }
        assert forall|a: int, b: int|
            0 <= a < b < os.len() implies seq_le(
            entries@[os[a]].path@,
            entries@[os[b]].path@,
        ) by {
            assert(seq_le(entries@[out@[a] as int].path@, entries@[out@[b] as int].path@));
        }
        if out@.len() > 0 {
            assert(spec_is_blob(entries@[out@[0] as int]));
        }
    }
    out
}

/// The composite hash of a directory resource: the content hash of its
/// member blob hashes concatenated in ascending path order.  A listing
/// with no blob at all reads as a missing resource.
pub fn directory_hash(entries: &Vec<GitHubTreeEntry>) -> (r: Result<String, GitHubApiError>)
    ensures
        r is Ok <==> exists|j: int|
            0 <= j < entries@.len() && spec_is_blob(#[trigger] entries@[j]),
        r matches Ok(h) ==> exists|order: Seq<int>|
            #[trigger] spec_blob_order(entries@, order) && h@ == spec_content_hash(
                spec_concat_shas(entries@, order),
            ),
        r matches Err(e) ==> e is NotFound,
{
    let order = sorted_blob_indexes(entries);
    if order.len() == 0 {
        return Err(GitHubApiError::NotFound);
    }
    let n = order.len();
    let mut combined = String::new();
    let mut i: usize = 0;
    let ghost ospec = order@.map_values(|v: usize| v as int);
    proof {
        assert(ospec.subrange(0, n as int) =~= ospec);
        assert(combined@ + spec_concat_shas(entries@, ospec.subrange(0, n as int))
            =~= spec_concat_shas(entries@, ospec));
    }
    while i < n
        invariant
            i <= n,
            n == order@.len(),
            ospec == order@.map_values(|v: usize| v as int),
            spec_blob_order(entries@, ospec),
            n == ospec.len(),
            spec_concat_shas(entries@, ospec) =~= combined@ + spec_concat_shas(
                entries@,
                ospec.subrange(i as int, n as int),
            ),
        decreases n - i,
    {
        proof {
            assert(ospec.subrange(i as int, n as int)[0] == ospec[i as int]);
            assert(ospec.subrange(i as int, n as int).subrange(1, (n - i) as int)
                =~= ospec.subrange(i + 1, n as int));
            assert(0 <= ospec[i as int] < entries@.len());
        }
        combined.append(entries[order[i]].sha.as_str());
        i += 1;
    }
    proof {
        assert(spec_concat_shas(entries@, ospec.subrange(n as int, n as int)) =~= Seq::<
            char,
        >::empty());
        assert(combined@ =~= spec_concat_shas(entries@, ospec));
    }
    let h = compute_hash(combined.as_str());
    Ok(h)
}

/// Keep the tree entries lying under `path`: everything when `path` is
/// empty, else the entry at `path` itself and every entry under
/// `path/`.  Order is kept.
pub fn filter_tree_entries(entries: Vec<GitHubTreeEntry>, path: &str) -> (r: Vec<
    GitHubTreeEntry,
>)
    ensures
        path@.len() == 0 ==> r == entries,
        path@.len() > 0 ==> {
            &&& (forall|k: int|
                0 <= k < r@.len() ==> ((#[trigger] r@[k]).path@ == path@ || spec_starts_with(
                    r@[k].path@,
                    path@ + seq!['/'],
                )) && (exists|j: int| 0 <= j < entries@.len() && entries@[j] == r@[k]))
            &&& (forall|j: int|
                0 <= j < entries@.len() && ((#[trigger] entries@[j]).path@ == path@
                    || spec_starts_with(entries@[j].path@, path@ + seq!['/'])) ==> (
                exists|k: int| 0 <= k < r@.len() && r@[k] == entries@[j]))
        },
{
    if path.is_empty() {
        return entries;
    }
    let mut prefix = String::from_str(path);
    push_char(&mut prefix, '/');
    assert(prefix@ =~= path@ + seq!['/']);
    let mut source = entries;
    let ghost pre = source@;
    let n = source.len();
    let mut kept: Vec<GitHubTreeEntry> = Vec::new();
    let mut i: usize = 0;
    while i < n
        invariant
            i <= n,
            n == pre.len(),
            prefix@ == path@ + seq!['/'],
            source@ =~= pre.subrange(i as int, n as int),
            forall|k: int|
                0 <= k < kept@.len() ==> ((#[trigger] kept@[k]).path@ == path@
                    || spec_starts_with(kept@[k].path@, path@ + seq!['/'])) && (exists|j: int|
                    0 <= j < pre.len() && pre[j] == kept@[k]),
            forall|j: int|
                0 <= j < i && ((#[trigger] pre[j]).path@ == path@ || spec_starts_with(
                    pre[j].path@,
                    path@ + seq!['/'],
                )) ==> (exists|k: int| 0 <= k < kept@.len() && kept@[k] == pre[j]),
        decreases n - i,
    {
        let e = source.remove(0);
        proof {
            assert(e == pre[i as int]);
            assert(source@ =~= pre.subrange(i + 1, n as int));
        }
        let keep = eq_str(e.path.as_str(), path) || crate::strutil::starts_with_str(
            e.path.as_str(),
            prefix.as_str(),
        );
        let ghost prev = kept@;
        if keep {
            kept.push(e);
            proof {
                assert(kept@[kept@.len() - 1] == pre[i as int]);
                assert forall|j: int|
                    0 <= j < i + 1 && ((#[trigger] pre[j]).path@ == path@ || spec_starts_with(
                        pre[j].path@,
                        path@ + seq!['/'],
                    )) implies (exists|k: int| 0 <= k < kept@.len() && kept@[k] == pre[j]) by {
                    if j < i {
                        let k = choose|k: int| 0 <= k < prev.len() && prev[k] == pre[j];
                        assert(kept@[k] == pre[j]);
                    } else {
                        assert(kept@[kept@.len() - 1] == pre[j]);
                    }
                }
            }
        }
        i += 1;
    }
    kept
}

} // verus!
