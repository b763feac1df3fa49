//! Resolving a path with the help of the disk.
//!
//! The disk is asked one question: what is the canonical form of a path? The
//! functions here take the one who answers it as an argument, so that what they do
//! is settled for every answer.
use crate::path::collapsed;
use crate::path::components;
use crate::path::components_of;
use crate::path::extend_path;
use crate::path::extended;
use crate::path::here;
use crate::path::is_absolute;
use crate::path::is_name;
use crate::path::law_normal_form_has_no_dots;
use crate::path::lemma_components_of_path;
use crate::path::lemma_dotless_components;
use crate::path::lemma_extended_concat;
use crate::path::lemma_names;
use crate::path::lemma_normal_is_collapsed;
use crate::path::lemma_rendered;
use crate::path::names_of;
use crate::path::normal;
use crate::path::normalize_path;
use crate::path::normalized_path;
use crate::path::pushed;
use crate::path::render_first;
use crate::path::rendered;
use crate::path::root;
use crate::path::starts_here;
use crate::path::up;
use crate::text::clean_field;
use crate::text::fields_of;
use crate::text::same_text;
use crate::text::Separator;
use vstd::prelude::*;
use vstd::string::*;

verus! {

/// The text of an answer.
pub open spec fn answer_text(answer: Option<String>) -> Option<Seq<char>> {
    match answer {
        Some(s) => Some(s@),
        None => None,
    }
}

/// `canonicalize` may answer `answer` when it is asked for `path`.
pub open spec fn answered<F: Fn(&str) -> Option<String>>(
    canonicalize: F,
    path: Seq<char>,
    answer: Option<Seq<char>>,
) -> bool {
    exists|p: &str, a: Option<String>|
        {
            &&& p@ == path
            &&& #[trigger] call_ensures(canonicalize, (p,), a)
            &&& answer_text(a) == answer
        }
}

/// `current` names an ancestor of `path`, or `path` itself, for which there was no
/// answer; the walk goes on above it and may end with `r`. It ends at the deepest
/// ancestor with a canonical form, to which the components of `path` below that
/// ancestor are appended. Where it gets to no such ancestor, it ends with the normal
/// form of `path`.
pub open spec fn walks_to<F: Fn(&str) -> Option<String>>(
    canonicalize: F,
    path: Seq<char>,
    current: Seq<Seq<char>>,
    r: Seq<char>,
) -> bool
    decreases current.len(),
{
    if current.len() == 0 || current.last() == root() {
        r == normalized_path(path)
    } else {
        let parent = current.drop_last();
        let below = components_of(path).skip(parent.len() as int);
        ||| exists|c: Seq<char>| #[trigger]
            answered(canonicalize, rendered(parent), Some(c)) && r == normalized_path(
                extended(c, below),
            )
        ||| answered(canonicalize, rendered(parent), None) && walks_to(
            canonicalize,
            path,
            parent,
            r,
        )
    }
}

/// `path` may resolve to `r`, with the answers that `canonicalize` may give.
pub open spec fn resolves_to<F: Fn(&str) -> Option<String>>(
    canonicalize: F,
    path: Seq<char>,
    r: Seq<char>,
) -> bool {
    ||| answered(canonicalize, path, Some(r))
    ||| answered(canonicalize, path, None) && walks_to(canonicalize, path, components_of(path), r)
}

/// A disk at rest: what the canonical form of each path is.
pub type Disk = spec_fn(Seq<char>) -> Option<Seq<char>>;

/// `canonicalize` answers as `disk` says.
pub open spec fn answers_by<F: Fn(&str) -> Option<String>>(canonicalize: F, disk: Disk) -> bool {
    forall|p: &str, a: Option<String>| #[trigger]
        call_ensures(canonicalize, (p,), a) ==> answer_text(a) == disk(p@)
}

/// Where the walk from `current` ends on a disk at rest.
pub open spec fn walked(disk: Disk, path: Seq<char>, current: Seq<Seq<char>>) -> Seq<char>
    decreases current.len(),
{
    if current.len() == 0 || current.last() == root() {
        normalized_path(path)
    } else {
        let parent = current.drop_last();
        match disk(rendered(parent)) {
            Some(c) => normalized_path(
                extended(c, components_of(path).skip(parent.len() as int)),
            ),
            None => walked(disk, path, parent),
        }
    }
}

/// What a path resolves to on a disk at rest: its canonical form; or else that of
/// its deepest ancestor that has one, with the other components appended; or else
/// its normal form.
pub open spec fn resolved(disk: Disk, path: Seq<char>) -> Seq<char> {
    match disk(path) {
        Some(c) => c,
        None => walked(disk, path, components_of(path)),
    }
}

/// On a disk at rest, what a path resolves to is settled.
pub proof fn law_resolution_is_settled<F: Fn(&str) -> Option<String>>(
    canonicalize: F,
    disk: Disk,
    path: Seq<char>,
    r: Seq<char>,
)
    requires
        answers_by(canonicalize, disk),
        resolves_to(canonicalize, path, r),
    ensures
        r == resolved(disk, path),
{
    if disk(path) is None {
        lemma_walk_is_settled(canonicalize, disk, path, components_of(path), r);
    }
}

proof fn lemma_walk_is_settled<F: Fn(&str) -> Option<String>>(
    canonicalize: F,
    disk: Disk,
    path: Seq<char>,
    current: Seq<Seq<char>>,
    r: Seq<char>,
)
    requires
        answers_by(canonicalize, disk),
        walks_to(canonicalize, path, current, r),
    ensures
        r == walked(disk, path, current),
    decreases current.len(),
{
    if current.len() > 0 && current.last() != root() {
        let parent = current.drop_last();
        if disk(rendered(parent)) is None {
            lemma_walk_is_settled(canonicalize, disk, path, parent, r);
        }
    }
}

/// What a walk ends with is a normal form.
proof fn lemma_walk_ends_normal<F: Fn(&str) -> Option<String>>(
    canonicalize: F,
    path: Seq<char>,
    current: Seq<Seq<char>>,
    r: Seq<char>,
)
    requires
        walks_to(canonicalize, path, current, r),
    ensures
        normal(components_of(r)),
    decreases current.len(),
{
    if current.len() == 0 || current.last() == root() {
        law_normal_form_has_no_dots(path);
    } else {
        let parent = current.drop_last();
        let below = components_of(path).skip(parent.len() as int);
        if exists|c: Seq<char>| #[trigger]
            answered(canonicalize, rendered(parent), Some(c)) && r == normalized_path(
                extended(c, below),
            ) {
            let c = choose|c: Seq<char>| #[trigger]
                answered(canonicalize, rendered(parent), Some(c)) && r == normalized_path(
                    extended(c, below),
                );
            law_normal_form_has_no_dots(extended(c, below));
        } else {
            lemma_walk_ends_normal(canonicalize, path, parent, r);
        }
    }
}

/// What a path resolves to is its canonical form, or has no `.` and no `..` left
/// among its components. So a `..` in a part of a path that does not exist is taken
/// into account.
pub proof fn law_resolution_leaves_no_dots<F: Fn(&str) -> Option<String>>(
    canonicalize: F,
    path: Seq<char>,
    r: Seq<char>,
)
    requires
        resolves_to(canonicalize, path, r),
    ensures
        answered(canonicalize, path, Some(r)) || normal(components_of(r)),
{
    if !answered(canonicalize, path, Some(r)) {
        lemma_walk_ends_normal(canonicalize, path, components_of(path), r);
    }
}

/// Where the disk knows no path, a path resolves to its normal form.
pub proof fn law_unknown_paths_are_normalized(disk: Disk, path: Seq<char>)
    requires
        forall|p: Seq<char>| #[trigger] disk(p) is None,
    ensures
        resolved(disk, path) == normalized_path(path),
{
    lemma_unknown_walk(disk, path, components_of(path));
}

proof fn lemma_unknown_walk(disk: Disk, path: Seq<char>, current: Seq<Seq<char>>)
    requires
        forall|p: Seq<char>| #[trigger] disk(p) is None,
    ensures
        walked(disk, path, current) == normalized_path(path),
    decreases current.len(),
{
    if current.len() > 0 && current.last() != root() {
        lemma_unknown_walk(disk, path, current.drop_last());
    }
}

/// A path that has a canonical form resolves to it, however long it is: on a disk at
/// rest, and also where the disk is known to answer so for this path only.
pub proof fn law_existing_path_resolves_to_its_canonical_form<F: Fn(&str) -> Option<String>>(
    canonicalize: F,
    disk: Disk,
    path: Seq<char>,
    c: Seq<char>,
    r: Seq<char>,
)
    ensures
        disk(path) == Some(c) ==> resolved(disk, path) == c,
        resolves_to(canonicalize, path, r) && (forall|p: &str, a: Option<String>|
            p@ == path && #[trigger] call_ensures(canonicalize, (p,), a) ==> a is Some && a->0@ == c)
            ==> r == c,
{
}

/// To answer by a disk at rest is to give the text that the disk has for the path, and
/// nothing where it has none.
pub proof fn law_answers<F: Fn(&str) -> Option<String>>(canonicalize: F, disk: Disk)
    ensures
        answers_by(canonicalize, disk) <==> forall|p: &str, a: Option<String>|
            {
                #[trigger] call_ensures(canonicalize, (p,), a) ==> match a {
                    Some(s) => disk(p@) == Some(s@),
                    None => disk(p@) is None,
                }
            },
{
    if answers_by(canonicalize, disk) {
        assert forall|p: &str, a: Option<String>| #[trigger]
            call_ensures(canonicalize, (p,), a) implies (match a {
            Some(s) => disk(p@) == Some(s@),
            None => disk(p@) is None,
        }) by {
            assert(answer_text(a) == disk(p@));
        }
    } else {
        assert forall|p: &str, a: Option<String>| #[trigger]
            call_ensures(canonicalize, (p,), a) && (match a {
                Some(s) => disk(p@) == Some(s@),
                None => disk(p@) is None,
            }) implies answer_text(a) == disk(p@) by {}
    }
}

/// Where neither a path nor any of its ancestors has a canonical form, it resolves to
/// its normal form.
pub proof fn law_resolution_without_ancestor(disk: Disk, path: Seq<char>)
    requires
        disk(path) is None,
        forall|j: int|
            0 <= j < components_of(path).len() && (path[0] == '/' ==> j > 0) ==> disk(
                rendered(#[trigger] components_of(path).take(j)),
            ) is None,
    ensures
        resolved(disk, path) == normalized_path(path),
{
    let all = components_of(path);
    assert(all.take(all.len() as int) == all);
    lemma_walk_finds_nothing(disk, path, all.len() as int);
}

proof fn lemma_walk_finds_nothing(disk: Disk, path: Seq<char>, n: int)
    requires
        0 <= n <= components_of(path).len(),
        forall|j: int|
            0 <= j < components_of(path).len() && (path[0] == '/' ==> j > 0) ==> disk(
                rendered(#[trigger] components_of(path).take(j)),
            ) is None,
    ensures
        walked(disk, path, components_of(path).take(n)) == normalized_path(path),
    decreases n,
{
    let all = components_of(path);
    let current = all.take(n);
    if n > 0 && current.last() != root() {
        assert(current.drop_last() == all.take(n - 1));
        assert(n == 1 && is_absolute(path) ==> current.last() == root());
        lemma_walk_finds_nothing(disk, path, n - 1);
    }
}

/// Where a path has no canonical form, it resolves from the deepest of its ancestors
/// that has one: that form, with all the components below the ancestor appended, be
/// they names or `..`, and then normalized. `k` is the number of components of the
/// ancestor.
pub proof fn law_resolution_from_deepest_ancestor(disk: Disk, path: Seq<char>, k: int)
    requires
        disk(path) is None,
        0 <= k < components_of(path).len(),
        is_absolute(path) ==> k > 0,
        disk(rendered(components_of(path).take(k))) is Some,
        forall|j: int|
            k < j < components_of(path).len() ==> disk(
                rendered(#[trigger] components_of(path).take(j)),
            ) is None,
    ensures
        resolved(disk, path) == normalized_path(
            extended(
                disk(rendered(components_of(path).take(k)))->0,
                components_of(path).skip(k),
            ),
        ),
{
    let all = components_of(path);
    assert(all.take(all.len() as int) == all);
    lemma_walk_from(disk, path, k, all.len() as int);
}

proof fn lemma_walk_from(disk: Disk, path: Seq<char>, k: int, n: int)
    requires
        0 <= k < n <= components_of(path).len(),
        is_absolute(path) ==> k > 0,
        disk(rendered(components_of(path).take(k))) is Some,
        forall|j: int|
            k < j < n ==> disk(rendered(#[trigger] components_of(path).take(j))) is None,
    ensures
        walked(disk, path, components_of(path).take(n)) == normalized_path(
            extended(
                disk(rendered(components_of(path).take(k)))->0,
                components_of(path).skip(k),
            ),
        ),
    decreases n,
{
    let all = components_of(path);
    let current = all.take(n);
    assert(current.drop_last() == all.take(n - 1));
    assert(current.last() != root()) by {
        lemma_names(path);
        assert(root()[0] == '/' && here()[0] == '.');
        let lead: int = if is_absolute(path) || starts_here(path) {
            1
        } else {
            0
        };
        if n - 1 >= lead {
            assert(all[n - 1] == names_of(path)[n - 1 - lead]);
        }
    }
    if n - 1 > k {
        lemma_walk_from(disk, path, k, n - 1);
    }
}

/// A disk at rest that is a file system. Doubled slashes make no difference. What it
/// answers are absolute normal forms that are their own canonical form. A directory
/// and its canonical form have the same entries, and nothing is below a missing entry.
pub open spec fn is_file_system(disk: Disk) -> bool {
    &&& forall|p: Seq<char>| plain(p) ==> #[trigger] disk(p) == disk(normalized_path(p))
    &&& forall|p: Seq<char>| (#[trigger] disk(p)) is Some ==> is_canonical(disk, disk(p)->0)
    &&& forall|p: Seq<char>, name: Seq<char>|
        is_absolute(p) && normalized_path(p) == p && is_name(name) && clean_field(
            name,
            Separator::Char('/'),
        ) ==> #[trigger] disk(pushed(p, name)) == (match disk(p) {
            Some(c) => disk(pushed(c, name)),
            None => None,
        })
}

/// `c` is an absolute normal form and its own canonical form.
pub open spec fn is_canonical(disk: Disk, c: Seq<char>) -> bool {
    &&& is_absolute(c)
    &&& normalized_path(c) == c
    &&& disk(c) == Some(c)
}

/// `path` is absolute, has no `.` and no `..`, and ends with no slash, unless it is
/// the root.
pub open spec fn plain(path: Seq<char>) -> bool {
    &&& is_absolute(path)
    &&& path == root() || path.last() != '/'
    &&& !fields_of(path, Separator::Char('/')).contains(here())
    &&& !fields_of(path, Separator::Char('/')).contains(up())
}

/// What a plain path resolves to in a file system resolves to itself.
pub proof fn law_resolving_is_idempotent(disk: Disk, path: Seq<char>)
    requires
        is_file_system(disk),
        plain(path),
    ensures
        resolved(disk, resolved(disk, path)) == resolved(disk, path),
{
    let pieces = fields_of(path, Separator::Char('/'));
    let all = components_of(path);
    assert(!names_of(path).contains(up())) by {
        if names_of(path).contains(up()) {
            pieces.lemma_filter_contains_rev(|c: Seq<char>| c != here(), up());
        }
    }
    lemma_dotless_components(path);
    lemma_normal_is_collapsed(all);
    lemma_rendered(all);
    let same = rendered(all);
    lemma_walk_by_components(disk, path, same, all);
    assert(resolved(disk, same) == resolved(disk, path));
    if disk(same) is None {
        assert(all.take(all.len() as int) == all);
        lemma_walk_is_idempotent(disk, same, all.len() as int);
    }
}

/// A walk depends on the components of the path only.
proof fn lemma_walk_by_components(
    disk: Disk,
    a: Seq<char>,
    b: Seq<char>,
    current: Seq<Seq<char>>,
)
    requires
        components_of(a) == components_of(b),
    ensures
        walked(disk, a, current) == walked(disk, b, current),
    decreases current.len(),
{
    if current.len() > 0 {
        lemma_walk_by_components(disk, a, b, current.drop_last());
    }
}

/// The path that is made of the components of an absolute normal form is absolute and
/// in its normal form.
proof fn lemma_absolute_form(components: Seq<Seq<char>>)
    requires
        normal(components),
        components.len() > 0,
        components[0] == root(),
    ensures
        components_of(rendered(components)) == components,
        normalized_path(rendered(components)) == rendered(components),
        is_absolute(rendered(components)),
{
    let path = rendered(components);
    lemma_rendered(components);
    lemma_normal_is_collapsed(components);
    if !is_absolute(path) {
        assert(root()[0] == '/' && here()[0] == '.');
        if !starts_here(path) {
            lemma_names(path);
            assert(names_of(path)[0] == root());
        }
    }
}

/// The first components of a normal form are those of a normal form.
proof fn lemma_normal_start(components: Seq<Seq<char>>, n: int)
    requires
        normal(components),
        0 <= n <= components.len(),
    ensures
        normal(components.take(n)),
{
    let start = components.take(n);
    assert forall|k: int| 0 <= k < start.len() implies (k == 0 && #[trigger] start[k] == root())
        || (is_name(start[k]) && clean_field(start[k], Separator::Char('/'))) by {
        assert(start[k] == components[k]);
    }
}

/// Below a missing entry everything is missing, so a walk passes all of it.
proof fn lemma_walk_up(
    disk: Disk,
    path: Seq<char>,
    base: Seq<Seq<char>>,
    below: Seq<Seq<char>>,
    j: int,
)
    requires
        is_file_system(disk),
        normal(base + below),
        base.len() > 0,
        base[0] == root(),
        1 <= j <= below.len(),
        disk(rendered(base + below.take(1))) is None,
    ensures
        disk(rendered(base + below.take(j))) is None,
        walked(disk, path, base + below.take(j)) == walked(disk, path, base + below.take(1)),
    decreases j,
{
    if j > 1 {
        lemma_walk_up(disk, path, base, below, j - 1);
        let all = base + below;
        let current = base + below.take(j);
        let parent = base + below.take(j - 1);
        let name = below[j - 1];
        assert(current.drop_last() == parent);
        assert(current.last() == name);
        assert(all[base.len() + j - 1] == name);
        assert(parent == all.take(base.len() + j - 1));
        lemma_normal_start(all, base.len() + j - 1);
        lemma_absolute_form(parent);
        assert(rendered(current) == pushed(rendered(parent), name));
    }
}

/// What a walk from the first `k` components ends with resolves to itself, if nothing
/// was found up to there.
proof fn lemma_walk_is_idempotent(disk: Disk, path: Seq<char>, k: int)
    requires
        is_file_system(disk),
        normal(components_of(path)),
        path == rendered(components_of(path)),
        1 <= k <= components_of(path).len(),
        components_of(path)[0] == root(),
        disk(path) is None,
        disk(rendered(components_of(path).take(k))) is None,
        walked(disk, path, components_of(path)) == walked(
            disk,
            path,
            components_of(path).take(k),
        ),
    ensures
        resolved(disk, resolved(disk, path)) == resolved(disk, path),
    decreases k,
{
    let all = components_of(path);
    let current = all.take(k);
    lemma_absolute_form(all);
    assert(current.last() == all[k - 1]);
    if k == 1 {
        assert(resolved(disk, path) == path);
    } else {
        let parent = all.take(k - 1);
        let name = all[k - 1];
        assert(current.drop_last() == parent);
        assert(is_name(name));
        match disk(rendered(parent)) {
            None => {
                lemma_walk_is_idempotent(disk, path, k - 1);
            },
            Some(c) => {
                let below = all.skip(k - 1);
                let base = collapsed(components_of(c));
                let joined = base + below;
                lemma_canonical_components(disk, rendered(parent));
                assert(normal(joined)) by {
                    assert forall|i: int| 0 <= i < joined.len() implies (i == 0
                        && #[trigger] joined[i] == root()) || (is_name(joined[i]) && clean_field(
                        joined[i],
                        Separator::Char('/'),
                    )) by {
                        if i >= base.len() {
                            assert(joined[i] == all[k - 1 + i - base.len()]);
                        } else {
                            assert(joined[i] == base[i]);
                        }
                    }
                }
                lemma_extended_concat(Seq::empty(), base, below);
                lemma_absolute_form(joined);
                let r = rendered(joined);
                assert(resolved(disk, path) == r);
                let first = base + below.take(1);
                assert(first.drop_last() == base);
                assert(first.last() == name);
                assert(rendered(first) == pushed(c, name));
                assert(rendered(current) == pushed(rendered(parent), name));
                lemma_normal_start(all, k - 1);
                lemma_absolute_form(parent);
                assert(disk(rendered(first)) is None);
                lemma_walk_up(disk, r, base, below, below.len() as int);
                assert(below.take(below.len() as int) == below);
                assert(joined.skip(base.len() as int) == below);
                assert(resolved(disk, r) == r);
            },
        }
    }
}

/// An answer is made of its own components, which are those of an absolute normal form.
proof fn lemma_canonical_components(disk: Disk, p: Seq<char>)
    requires
        is_file_system(disk),
        disk(p) is Some,
    ensures
        ({
            let c = disk(p)->0;
            let base = collapsed(components_of(c));
            &&& normal(base)
            &&& base.len() > 0
            &&& base[0] == root()
            &&& rendered(base) == c
            &&& components_of(c) == base
            &&& disk(c) == Some(c)
        }),
{
    let c = disk(p)->0;
    assert(is_canonical(disk, c));
    lemma_components_of_path(c);
    lemma_rendered(collapsed(components_of(c)));
}

/// Resolves a path: symlinks and `..` are followed as far as the path exists, what
/// is left is brought into its normal form.
pub fn resolve_path<F: Fn(&str) -> Option<String>>(path: &str, canonicalize: &F) -> (r: String)
    requires
        forall|p: &str| call_requires(*canonicalize, (p,)),
    ensures
        resolves_to(*canonicalize, path@, r@),
        forall|disk: Disk| #[trigger]
            answers_by(*canonicalize, disk) ==> r@ == resolved(disk, path@),
{
    let r = resolve_by_walking(path, canonicalize);
    proof {
        assert forall|disk: Disk| #[trigger] answers_by(*canonicalize, disk) implies r@ == resolved(
            disk,
            path@,
        ) by {
            law_resolution_is_settled(*canonicalize, disk, path@, r@);
        }
    }
    r
}

fn resolve_by_walking<F: Fn(&str) -> Option<String>>(path: &str, canonicalize: &F) -> (r: String)
    requires
        forall|p: &str| call_requires(*canonicalize, (p,)),
    ensures
        resolves_to(*canonicalize, path@, r@),
{
    let first = canonicalize(path);
    match first {
        Some(canonical) => {
            assert(answer_text(Some(canonical)) == Some(canonical@));
            return canonical;
        },
        None => {},
    }
    assert(answered(*canonicalize, path@, None));
    let parts = components(path);
    let ghost all = parts.deep_view();
    let mut count: usize = parts.len();
    assert(all.take(count as int) == all);
    while count > 0
        invariant
            forall|p: &str| call_requires(*canonicalize, (p,)),
            all == parts.deep_view(),
            all == components_of(path@),
            count <= parts@.len(),
            answered(*canonicalize, path@, None),
            forall|r: Seq<char>| #[trigger]
                walks_to(*canonicalize, path@, all.take(count as int), r) ==> walks_to(
                    *canonicalize,
                    path@,
                    all,
                    r,
                ),
        decreases count,
    {
        let last: &str = parts[count - 1];
        let ghost current = all.take(count as int);
        proof {
            reveal_strlit("/");
            assert("/"@ == root());
            assert(current.last() == last@);
            assert(current.drop_last() == all.take(count - 1));
        }
        if same_text(last, "/") {
            let r = normalize_path(path);
            assert(walks_to(*canonicalize, path@, current, r@));
            return r;
        }
        let parent = render_first(&parts, count - 1);
        let answer = canonicalize(parent.as_str());
        match answer {
            Some(canonical) => {
                let ghost c = canonical@;
                assert(answer_text(Some(canonical)) == Some(c));
                assert(answered(*canonicalize, rendered(all.take(count - 1)), Some(c)));
                let joined = extend_path(canonical, &parts, count - 1);
                let r = normalize_path(joined.as_str());
                assert(walks_to(*canonicalize, path@, current, r@));
                return r;
            },
            None => {
                assert(answered(*canonicalize, rendered(all.take(count - 1)), None));
                assert forall|r: Seq<char>| #[trigger]
                    walks_to(*canonicalize, path@, all.take(count - 1), r) implies walks_to(
                    *canonicalize,
                    path@,
                    all,
                    r,
                ) by {
                    assert(walks_to(*canonicalize, path@, current, r));
                }
                count -= 1;
            },
        }
    }
    let r = normalize_path(path);
    assert(walks_to(*canonicalize, path@, all.take(0), r@));
    r
}

} // verus!
