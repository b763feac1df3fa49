//! Keeping the file tools of the agent inside the allowed directories.
use crate::denial::reason_of;
use crate::denial::DenyReason;
use crate::path::is_absolute;
use crate::path::is_within;
use crate::path::law_everything_below_lies_within;
use crate::path::law_within_is_an_order;
use crate::path::within;
use crate::resolve::answers_by;
use crate::resolve::law_resolution_is_settled;
use crate::resolve::resolve_path;
use crate::resolve::resolved;
use crate::resolve::resolves_to;
use crate::resolve::Disk;
use crate::text::fields;
use crate::text::fields_of;
use crate::text::lemma_fields_at_separator;
use crate::text::trim;
use crate::text::trimmed;
use crate::text::Separator;
use vstd::prelude::*;
use vstd::string::*;

verus! {

/// The directories in a list of allowed paths: its parts between colons, which are
/// what Unix separates paths with, but for empty ones.
pub open spec fn prefixes_of(allowed: Seq<char>) -> Seq<Seq<char>> {
    fields_of(allowed, Separator::Char(':'))
}

/// The reason for denying a path that is not absolute.
pub open spec fn not_absolute_reason(tool: Seq<char>, path: Seq<char>) -> Seq<char> {
    tool + " blocked: path must be absolute, got '"@ + path + "'."@
}

/// The reason for denying a path outside the allowed directories.
pub open spec fn outside_reason(tool: Seq<char>, path: Seq<char>) -> Seq<char> {
    tool + " blocked: '"@ + path
        + "' is outside the allowed workspace. Stay within your worktree."@
}

/// `target` lies within what `prefix` may resolve to.
pub open spec fn may_hold<F: Fn(&str) -> Option<String>>(
    canonicalize: F,
    prefix: Seq<char>,
    target: Seq<char>,
) -> bool {
    exists|p: Seq<char>| #[trigger] resolves_to(canonicalize, prefix, p) && within(target, p)
}

/// `target` lies outside what `prefix` may resolve to.
pub open spec fn may_not_hold<F: Fn(&str) -> Option<String>>(
    canonicalize: F,
    prefix: Seq<char>,
    target: Seq<char>,
) -> bool {
    exists|p: Seq<char>| #[trigger] resolves_to(canonicalize, prefix, p) && !within(target, p)
}

/// What may be said of `path`, with the answers that `canonicalize` may give. A path
/// that is not absolute once it is trimmed is denied, whatever the answers are. Any
/// other is resolved, and allowed if it then lies within one of the allowed
/// directories, each of them resolved too.
pub open spec fn sandbox_verdict<F: Fn(&str) -> Option<String>>(
    canonicalize: F,
    tool: Seq<char>,
    path: Seq<char>,
    allowed: Seq<char>,
    verdict: Option<Seq<char>>,
) -> bool {
    let prefixes = prefixes_of(allowed);
    if !is_absolute(trimmed(path)) {
        verdict == Some(not_absolute_reason(tool, path))
    } else {
        exists|target: Seq<char>|
            {
                &&& #[trigger] resolves_to(canonicalize, trimmed(path), target)
                &&& match verdict {
                    None => exists|k: int|
                        0 <= k < prefixes.len() && may_hold(
                            canonicalize,
                            #[trigger] prefixes[k],
                            target,
                        ),
                    Some(reason) => {
                        &&& reason == outside_reason(tool, path)
                        &&& forall|k: int|
                            0 <= k < prefixes.len() ==> may_not_hold(
                                canonicalize,
                                #[trigger] prefixes[k],
                                target,
                            )
                    },
                }
            }
    }
}

/// `path` lies within one of the allowed directories, on a disk at rest.
pub open spec fn inside(disk: Disk, path: Seq<char>, allowed: Seq<char>) -> bool {
    exists|k: int|
        0 <= k < prefixes_of(allowed).len() && within(
            resolved(disk, trimmed(path)),
            resolved(disk, #[trigger] prefixes_of(allowed)[k]),
        )
}

/// The verdict on `path` on a disk at rest.
pub open spec fn sandbox_decision(
    disk: Disk,
    tool: Seq<char>,
    path: Seq<char>,
    allowed: Seq<char>,
) -> Option<Seq<char>> {
    if !is_absolute(trimmed(path)) {
        Some(not_absolute_reason(tool, path))
    } else if inside(disk, path, allowed) {
        None
    } else {
        Some(outside_reason(tool, path))
    }
}

/// On a disk at rest, the verdict on a path is settled.
pub proof fn law_sandbox_is_settled<F: Fn(&str) -> Option<String>>(
    canonicalize: F,
    disk: Disk,
    tool: Seq<char>,
    path: Seq<char>,
    allowed: Seq<char>,
    verdict: Option<Seq<char>>,
)
    requires
        answers_by(canonicalize, disk),
        sandbox_verdict(canonicalize, tool, path, allowed, verdict),
    ensures
        verdict == sandbox_decision(disk, tool, path, allowed),
{
    let prefixes = prefixes_of(allowed);
    assert forall|p: Seq<char>, r: Seq<char>| #[trigger]
        resolves_to(canonicalize, p, r) implies r == resolved(disk, p) by {
        law_resolution_is_settled(canonicalize, disk, p, r);
    }
}

/// The verdict on a path, where the sandbox may be off: an absent or an empty list
/// of allowed paths allows every path.
pub open spec fn file_path_verdict<F: Fn(&str) -> Option<String>>(
    canonicalize: F,
    tool: Seq<char>,
    path: Seq<char>,
    allowed: Option<Seq<char>>,
    verdict: Option<Seq<char>>,
) -> bool {
    if sandboxed(allowed) {
        sandbox_verdict(canonicalize, tool, path, allowed->0, verdict)
    } else {
        verdict is None
    }
}

/// The verdict on a path on a disk at rest, where the sandbox may be off.
pub open spec fn file_path_decision(
    disk: Disk,
    tool: Seq<char>,
    path: Seq<char>,
    allowed: Option<Seq<char>>,
) -> Option<Seq<char>> {
    if sandboxed(allowed) {
        sandbox_decision(disk, tool, path, allowed->0)
    } else {
        None
    }
}

/// The list of allowed paths is there and is not empty.
pub open spec fn sandboxed(allowed: Option<Seq<char>>) -> bool {
    allowed is Some && allowed->0.len() > 0
}

/// The text of a list of allowed paths.
pub open spec fn list_text(allowed: Option<&str>) -> Option<Seq<char>> {
    match allowed {
        Some(s) => Some(s@),
        None => None,
    }
}

// ---------------------------------------------------------------------------
// Laws
// ---------------------------------------------------------------------------
/// While the sandbox is on, a path that is not absolute is denied, whatever is on
/// the disk.
pub proof fn law_relative_paths_are_denied<F: Fn(&str) -> Option<String>>(
    canonicalize: F,
    tool: Seq<char>,
    path: Seq<char>,
    allowed: Option<Seq<char>>,
    verdict: Option<Seq<char>>,
)
    requires
        sandboxed(allowed),
        !is_absolute(trimmed(path)),
        file_path_verdict(canonicalize, tool, path, allowed, verdict),
    ensures
        verdict == Some(not_absolute_reason(tool, path)),
{
}

/// While the sandbox is off, every path is allowed.
pub proof fn law_no_list_allows_every_path<F: Fn(&str) -> Option<String>>(
    canonicalize: F,
    tool: Seq<char>,
    path: Seq<char>,
    allowed: Option<Seq<char>>,
    verdict: Option<Seq<char>>,
)
    requires
        !sandboxed(allowed),
        file_path_verdict(canonicalize, tool, path, allowed, verdict),
    ensures
        verdict is None,
{
}

/// A list of allowed paths allows what either of its halves allows, and nothing else.
pub proof fn law_lists_of_allowed_paths_add_up(
    disk: Disk,
    path: Seq<char>,
    first: Seq<char>,
    second: Seq<char>,
)
    ensures
        inside(disk, path, first.push(':') + second) <==> inside(disk, path, first) || inside(
            disk,
            path,
            second,
        ),
{
    let both = prefixes_of(first.push(':') + second);
    let a = prefixes_of(first);
    let b = prefixes_of(second);
    lemma_fields_at_separator(first, ':', second, Separator::Char(':'));
    assert(both == a + b);
    let target = resolved(disk, trimmed(path));
    if inside(disk, path, first.push(':') + second) {
        let k = choose|k: int|
            0 <= k < both.len() && within(target, resolved(disk, #[trigger] both[k]));
        if k < a.len() {
            assert(a[k] == both[k]);
        } else {
            assert(b[k - a.len()] == both[k]);
        }
    }
    if inside(disk, path, first) {
        let k = choose|k: int| 0 <= k < a.len() && within(target, resolved(disk, #[trigger] a[k]));
        assert(both[k] == a[k]);
    }
    if inside(disk, path, second) {
        let k = choose|k: int| 0 <= k < b.len() && within(target, resolved(disk, #[trigger] b[k]));
        assert(both[a.len() + k] == b[k]);
    }
}

/// An allowed directory is allowed itself.
pub proof fn law_allowed_directory_is_allowed(
    disk: Disk,
    tool: Seq<char>,
    allowed: Seq<char>,
    k: int,
)
    requires
        0 <= k < prefixes_of(allowed).len(),
        is_absolute(prefixes_of(allowed)[k]),
        trimmed(prefixes_of(allowed)[k]) == prefixes_of(allowed)[k],
    ensures
        sandbox_decision(disk, tool, prefixes_of(allowed)[k], allowed) is None,
{
    let p = resolved(disk, prefixes_of(allowed)[k]);
    law_within_is_an_order(p, p, p);
}

/// Where a path is allowed, what it resolves to lies within what one of the allowed
/// directories resolves to, component by component.
pub proof fn law_allowed_path_lies_within<F: Fn(&str) -> Option<String>>(
    canonicalize: F,
    tool: Seq<char>,
    path: Seq<char>,
    allowed: Seq<char>,
)
    requires
        sandbox_verdict(canonicalize, tool, path, allowed, None),
    ensures
        is_absolute(trimmed(path)),
        exists|target: Seq<char>, k: int, directory: Seq<char>|
            {
                &&& #[trigger] resolves_to(canonicalize, trimmed(path), target)
                &&& 0 <= k < prefixes_of(allowed).len()
                &&& #[trigger] resolves_to(canonicalize, prefixes_of(allowed)[k], directory)
                &&& within(target, directory)
            },
{
}

/// What the verdict on a path is, on a disk at rest. A trimmed path that does not start
/// with a slash is denied as such. Any other is allowed exactly if what it resolves to
/// lies within what one of the parts of the list resolves to, and denied as being
/// outside otherwise.
pub proof fn law_sandbox_decision(
    disk: Disk,
    tool: Seq<char>,
    path: Seq<char>,
    allowed: Seq<char>,
)
    ensures
        trimmed(path).len() == 0 || trimmed(path)[0] != '/' ==> sandbox_decision(
            disk,
            tool,
            path,
            allowed,
        ) == Some(tool + " blocked: path must be absolute, got '"@ + path + "'."@),
        trimmed(path).len() > 0 && trimmed(path)[0] == '/' ==> sandbox_decision(
            disk,
            tool,
            path,
            allowed,
        ) == (if exists|k: int|
            0 <= k < fields_of(allowed, Separator::Char(':')).len() && within(
                resolved(disk, trimmed(path)),
                resolved(disk, #[trigger] fields_of(allowed, Separator::Char(':'))[k]),
            ) {
            None
        } else {
            Some(
                tool + " blocked: '"@ + path
                    + "' is outside the allowed workspace. Stay within your worktree."@,
            )
        }),
{
}

/// An absent list of allowed paths, or an empty one, allows every path; any other is
/// what the verdict is found from.
pub proof fn law_file_path_decision(
    disk: Disk,
    tool: Seq<char>,
    path: Seq<char>,
    allowed: Option<&str>,
)
    ensures
        file_path_decision(disk, tool, path, list_text(allowed)) == (match allowed {
            Some(list) => if list@.len() > 0 {
                sandbox_decision(disk, tool, path, list@)
            } else {
                None
            },
            None => None,
        }),
{
}

/// A path that resolves to something below an allowed directory is allowed, however it
/// goes on below it.
pub proof fn law_everything_below_is_allowed(
    disk: Disk,
    tool: Seq<char>,
    path: Seq<char>,
    allowed: Seq<char>,
    k: int,
    rest: Seq<char>,
)
    requires
        trimmed(path).len() > 0 && trimmed(path)[0] == '/',
        0 <= k < fields_of(allowed, Separator::Char(':')).len(),
        resolved(disk, fields_of(allowed, Separator::Char(':'))[k]).len() > 0,
        resolved(disk, trimmed(path)) == resolved(
            disk,
            fields_of(allowed, Separator::Char(':'))[k],
        ) + seq!['/'] + rest,
    ensures
        sandbox_decision(disk, tool, path, allowed) is None,
{
    law_everything_below_lies_within(
        resolved(disk, fields_of(allowed, Separator::Char(':'))[k]),
        rest,
    );
    assert(prefixes_of(allowed)[k] == fields_of(allowed, Separator::Char(':'))[k]);
}

// ---------------------------------------------------------------------------
// The functions
// ---------------------------------------------------------------------------
/// Checks a path against a list of allowed paths.
pub fn evaluate_file_path_with_allowed<F: Fn(&str) -> Option<String>>(
    tool_name: &str,
    file_path: &str,
    allowed: &str,
    canonicalize: &F,
) -> (r: Option<DenyReason>)
    requires
        forall|p: &str| call_requires(*canonicalize, (p,)),
    ensures
        sandbox_verdict(*canonicalize, tool_name@, file_path@, allowed@, reason_of(r)),
        forall|disk: Disk| #[trigger]
            answers_by(*canonicalize, disk) ==> reason_of(r) == sandbox_decision(
                disk,
                tool_name@,
                file_path@,
                allowed@,
            ),
{
    let r = check_path(tool_name, file_path, allowed, canonicalize);
    proof {
        assert forall|disk: Disk| #[trigger] answers_by(*canonicalize, disk) implies reason_of(r)
            == sandbox_decision(disk, tool_name@, file_path@, allowed@) by {
            law_sandbox_is_settled(
                *canonicalize,
                disk,
                tool_name@,
                file_path@,
                allowed@,
                reason_of(r),
            );
        }
    }
    r
}

/// The path that is to be resolved: the trimmed one, if that is absolute.
pub fn path_to_resolve<'a>(file_path: &'a str) -> (r: Option<&'a str>)
    ensures
        r is Some <==> is_absolute(trimmed(file_path@)),
        r matches Some(path) ==> path@ == trimmed(file_path@),
{
    let path = trim(file_path);
    if path.is_empty() || path.get_char(0) != '/' {
        None
    } else {
        Some(path)
    }
}

fn check_path<F: Fn(&str) -> Option<String>>(
    tool_name: &str,
    file_path: &str,
    allowed: &str,
    canonicalize: &F,
) -> (r: Option<DenyReason>)
    requires
        forall|p: &str| call_requires(*canonicalize, (p,)),
    ensures
        sandbox_verdict(*canonicalize, tool_name@, file_path@, allowed@, reason_of(r)),
{
    let path: &str = match path_to_resolve(file_path) {
        Some(path) => path,
        None => {
            let reason = tool_name.to_owned().concat(
                " blocked: path must be absolute, got '",
            ).concat(file_path).concat("'.");
            return Some(DenyReason { reason });
        },
    };
    let target = resolve_path(path, canonicalize);
    let prefixes = fields(allowed, Separator::Char(':'));
    let ghost all = prefixes_of(allowed@);
    let n: usize = prefixes.len();
    let mut i: usize = 0;
    while i < n
        invariant
            forall|p: &str| call_requires(*canonicalize, (p,)),
            path@ == trimmed(file_path@),
            is_absolute(path@),
            resolves_to(*canonicalize, path@, target@),
            all == prefixes_of(allowed@),
            all == prefixes.deep_view(),
            n == prefixes@.len(),
            i <= n,
            forall|k: int|
                0 <= k < i ==> may_not_hold(*canonicalize, #[trigger] all[k], target@),
        decreases n - i,
    {
        assert(all[i as int] == prefixes@[i as int]@);
        let prefix = resolve_path(prefixes[i], canonicalize);
        if is_within(target.as_str(), prefix.as_str()) {
            assert(may_hold(*canonicalize, all[i as int], target@));
            return None;
        }
        i += 1;
    }
    let reason = tool_name.to_owned().concat(" blocked: '").concat(file_path).concat(
        "' is outside the allowed workspace. Stay within your worktree.",
    );
    Some(DenyReason { reason })
}

/// Checks a path against the list of allowed paths, if there is one. With no list,
/// or an empty one, every path is allowed.
pub fn evaluate_file_path<F: Fn(&str) -> Option<String>>(
    tool_name: &str,
    file_path: &str,
    allowed: Option<&str>,
    canonicalize: &F,
) -> (r: Option<DenyReason>)
    requires
        forall|p: &str| call_requires(*canonicalize, (p,)),
    ensures
        file_path_verdict(*canonicalize, tool_name@, file_path@, list_text(allowed), reason_of(r)),
        forall|disk: Disk| #[trigger]
            answers_by(*canonicalize, disk) ==> reason_of(r) == file_path_decision(
                disk,
                tool_name@,
                file_path@,
                list_text(allowed),
            ),
{
    match allowed {
        Some(list) => {
            if list.is_empty() {
                None
            } else {
                evaluate_file_path_with_allowed(tool_name, file_path, list, canonicalize)
            }
        },
        None => None,
    }
}

} // verus!
