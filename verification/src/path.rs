//! Paths as Unix has them: their components, their normal form, and which lie within
//! which. The paths of other systems, with their drives and other separators, are not
//! described.
use crate::text::clean_field;
use crate::text::fields;
use crate::text::fields_of;
use crate::text::lemma_clean_field_is_its_field;
use crate::text::lemma_fields_are_clean;
use crate::text::lemma_fields_at_separator;
use crate::text::same_text;
use crate::text::Separator;
use vstd::prelude::*;
use vstd::string::*;

verus! {

// ---------------------------------------------------------------------------
// Components
// ---------------------------------------------------------------------------
/// The component that an absolute path starts with.
pub open spec fn root() -> Seq<char> {
    seq!['/']
}

/// The component for the directory itself.
pub open spec fn here() -> Seq<char> {
    seq!['.']
}

/// The component for the directory above.
pub open spec fn up() -> Seq<char> {
    seq!['.', '.']
}

/// `component` names an entry of a directory.
pub open spec fn is_name(component: Seq<char>) -> bool {
    component != root() && component != here() && component != up()
}

/// `path` starts at the root.
pub open spec fn is_absolute(path: Seq<char>) -> bool {
    path.len() > 0 && path[0] == '/'
}

/// `path` starts with the component for the directory itself.
pub open spec fn starts_here(path: Seq<char>) -> bool {
    path.len() > 0 && path[0] == '.' && !(path.len() > 1 && path[1] != '/')
}

/// What stands between the slashes of `path`, but for empty pieces and `.`.
pub open spec fn names_of(path: Seq<char>) -> Seq<Seq<char>> {
    fields_of(path, Separator::Char('/')).filter(|c: Seq<char>| c != here())
}

/// The components of a path. Repeated and trailing slashes make none, and neither
/// does a `.` that is not at the start of a relative path.
pub open spec fn components_of(path: Seq<char>) -> Seq<Seq<char>> {
    if is_absolute(path) {
        seq![root()] + names_of(path)
    } else if starts_here(path) {
        seq![here()] + names_of(path)
    } else {
        names_of(path)
    }
}

/// `base` with one more component.
pub open spec fn pushed(base: Seq<char>, component: Seq<char>) -> Seq<char> {
    if is_absolute(component) {
        component
    } else if base.len() == 0 || base.last() == '/' {
        base + component
    } else {
        base.push('/') + component
    }
}

/// `base` with more components, one after the other.
pub open spec fn extended(base: Seq<char>, components: Seq<Seq<char>>) -> Seq<char>
    decreases components.len(),
{
    if components.len() == 0 {
        base
    } else {
        pushed(extended(base, components.drop_last()), components.last())
    }
}

/// The path that is made of `components`.
pub open spec fn rendered(components: Seq<Seq<char>>) -> Seq<char> {
    extended(Seq::empty(), components)
}

/// `components` with every `.` taken out and every `..` taken out together with
/// the component in front of it. Above the root, or above the start of a relative
/// path, a `..` has no effect.
pub open spec fn collapsed(components: Seq<Seq<char>>) -> Seq<Seq<char>>
    decreases components.len(),
{
    if components.len() == 0 {
        components
    } else {
        let before = collapsed(components.drop_last());
        let last = components.last();
        if last == up() {
            if before.len() > 0 && before.last() != root() {
                before.drop_last()
            } else {
                before
            }
        } else if last == here() {
            before
        } else {
            before.push(last)
        }
    }
}

/// The normal form of a path, found without looking at the disk.
pub open spec fn normalized_path(path: Seq<char>) -> Seq<char> {
    rendered(collapsed(components_of(path)))
}

/// `path` is `prefix` or lies below it, component by component.
pub open spec fn within(path: Seq<char>, prefix: Seq<char>) -> bool {
    components_of(prefix).is_prefix_of(components_of(path))
}

// ---------------------------------------------------------------------------
// Laws
// ---------------------------------------------------------------------------
/// The components of a normal form: a root at most at the start, and names.
pub open spec fn normal(components: Seq<Seq<char>>) -> bool {
    forall|k: int|
        0 <= k < components.len() ==> (k == 0 && #[trigger] components[k] == root()) || (is_name(
            components[k],
        ) && clean_field(components[k], Separator::Char('/')))
}

/// The names of a path hold no slash, and none of them is `.`.
pub proof fn lemma_names(path: Seq<char>)
    ensures
        forall|k: int|
            0 <= k < names_of(path).len() ==> clean_field(
                #[trigger] names_of(path)[k],
                Separator::Char('/'),
            ) && names_of(path)[k] != here() && names_of(path)[k] != root(),
{
    let pieces = fields_of(path, Separator::Char('/'));
    let keep = |c: Seq<char>| c != here();
    lemma_fields_are_clean(path, Separator::Char('/'));
    assert forall|k: int| 0 <= k < names_of(path).len() implies clean_field(
        #[trigger] names_of(path)[k],
        Separator::Char('/'),
    ) && names_of(path)[k] != here() && names_of(path)[k] != root() by {
        pieces.lemma_filter_pred(keep, k);
        pieces.lemma_filter_contains_rev(keep, names_of(path)[k]);
        let j = pieces.index_of(names_of(path)[k]);
        assert(clean_field(pieces[j], Separator::Char('/')));
        assert(!Separator::Char('/').separates(names_of(path)[k][0]));
    }
}

/// Collapsing leaves components of a normal form.
proof fn lemma_collapsed_is_normal(components: Seq<Seq<char>>)
    requires
        forall|k: int|
            0 <= k < components.len() ==> (k == 0 && #[trigger] components[k] == root())
                || components[k] == here() || (components[k] != root() && clean_field(
                components[k],
                Separator::Char('/'),
            )),
    ensures
        normal(collapsed(components)),
        components.len() > 0 && components[0] == root() ==> collapsed(components).len() > 0
            && collapsed(components)[0] == root(),
        collapsed(components).len() > 0 && collapsed(components)[0] == root() ==> components.len()
            > 0 && components[0] == root(),
        collapsed(components).len() <= components.len(),
    decreases components.len(),
{
    if components.len() > 0 {
        lemma_collapsed_is_normal(components.drop_last());
        assert(components.last() == components[components.len() - 1]);
        assert(root()[0] == '/' && up()[0] == '.' && here()[0] == '.');
        assert(components.len() > 1 ==> components.drop_last()[0] == components[0]);
    }
}

/// A normal form has nothing to collapse.
pub proof fn lemma_normal_is_collapsed(components: Seq<Seq<char>>)
    requires
        normal(components),
    ensures
        collapsed(components) == components,
    decreases components.len(),
{
    if components.len() > 0 {
        assert(normal(components.drop_last()));
        lemma_normal_is_collapsed(components.drop_last());
        let last = components.last();
        assert(last == components[components.len() - 1]);
        assert(last != up() && last != here()) by {
            assert(root()[0] == '/' && up()[0] == '.' && here()[0] == '.');
        }
        assert(components.drop_last().push(last) == components);
    }
}

/// The components of a path collapse to those of a normal form, which starts at the
/// root exactly if the path does.
pub proof fn lemma_components_of_path(path: Seq<char>)
    ensures
        normal(collapsed(components_of(path))),
        is_absolute(path) <==> collapsed(components_of(path)).len() > 0 && collapsed(
            components_of(path),
        )[0] == root(),
{
    lemma_names(path);
    assert(root()[0] == '/' && here()[0] == '.');
    let all = components_of(path);
    assert forall|k: int| 0 <= k < all.len() implies (k == 0 && #[trigger] all[k] == root())
        || all[k] == here() || (all[k] != root() && clean_field(all[k], Separator::Char('/'))) by {
        let lead: int = if is_absolute(path) || starts_here(path) {
            1
        } else {
            0
        };
        if k >= lead {
            assert(all[k] == names_of(path)[k - lead]);
        }
    }
    lemma_collapsed_is_normal(all);
}

/// Appending components in two steps is appending them all.
pub proof fn lemma_extended_concat(base: Seq<char>, a: Seq<Seq<char>>, b: Seq<Seq<char>>)
    ensures
        extended(base, a + b) == extended(extended(base, a), b),
    decreases b.len(),
{
    if b.len() == 0 {
        assert(a + b == a);
    } else {
        assert((a + b).drop_last() == a + b.drop_last());
        assert((a + b).last() == b.last());
        lemma_extended_concat(base, a, b.drop_last());
    }
}

/// Where no `..` is among its names, the components of an absolute path are those of
/// a normal form.
pub proof fn lemma_dotless_components(path: Seq<char>)
    requires
        is_absolute(path),
        !names_of(path).contains(up()),
    ensures
        normal(components_of(path)),
        components_of(path)[0] == root(),
{
    lemma_names(path);
    let all = components_of(path);
    assert forall|k: int| 0 <= k < all.len() implies (k == 0 && #[trigger] all[k] == root()) || (
    is_name(all[k]) && clean_field(all[k], Separator::Char('/'))) by {
        if k > 0 {
            assert(all[k] == names_of(path)[k - 1]);
        }
    }
}

proof fn lemma_names_extended(base: Seq<char>, name: Seq<char>)
    requires
        clean_field(name, Separator::Char('/')),
        name != here(),
        base.len() > 0,
    ensures
        names_of(pushed(base, name)) == names_of(base).push(name),
{
    let slash = Separator::Char('/');
    let keep = |c: Seq<char>| c != here();
    let t = pushed(base, name);
    assert(!slash.separates(name[0]));
    lemma_clean_field_is_its_field(name, slash);
    if base.last() == '/' {
        let b = base.drop_last();
        assert(b.push('/') == base);
        lemma_fields_at_separator(b, '/', name, slash);
        lemma_fields_at_separator(b, '/', Seq::empty(), slash);
        assert(b.push('/') + Seq::<char>::empty() == base);
        assert(fields_of(Seq::<char>::empty(), slash) == Seq::<Seq<char>>::empty());
        assert(fields_of(b, slash) + Seq::<Seq<char>>::empty() == fields_of(b, slash));
    } else {
        lemma_fields_at_separator(base, '/', name, slash);
    }
    assert(fields_of(t, slash) == fields_of(base, slash) + seq![name]);
    Seq::filter_distributes_over_add(fields_of(base, slash), seq![name], keep);
    reveal(Seq::filter);
    assert(seq![name].drop_last() == Seq::<Seq<char>>::empty());
    assert(seq![name].filter(keep) == seq![name]);
    assert(names_of(base) + seq![name] == names_of(base).push(name));
}

/// Making a path of the components of a normal form and taking it apart again gives
/// these components.
pub proof fn lemma_rendered(components: Seq<Seq<char>>)
    requires
        normal(components),
    ensures
        components_of(rendered(components)) == components,
    decreases components.len(),
{
    let path = rendered(components);
    let slash = Separator::Char('/');
    reveal(Seq::filter);
    assert(names_of(Seq::<char>::empty()) == Seq::<Seq<char>>::empty());
    if components.len() == 0 {
    } else {
        let before = components.drop_last();
        let last = components.last();
        let base = rendered(before);
        assert(last == components[components.len() - 1]);
        assert(normal(before));
        lemma_rendered(before);
        if before.len() == 0 {
            if last == root() {
                assert(path == root());
                assert(path.skip(1) == Seq::<char>::empty());
                assert(fields_of(path, slash) == fields_of(path.skip(1), slash));
                assert(components_of(path) == seq![root()]);
            } else {
                assert(!slash.separates(last[0]));
                assert(path == last);
                lemma_clean_field_is_its_field(last, slash);
                assert(seq![last].drop_last() == Seq::<Seq<char>>::empty());
                assert(names_of(path) == seq![last]);
                if starts_here(last) {
                    if last.len() > 1 {
                        assert(!slash.separates(last[1]));
                    }
                    assert(last == here());
                }
                assert(components_of(path) == seq![last]);
            }
        } else {
            assert(base.len() > 0);
            assert(before[0] == components[0]);
            lemma_names_extended(base, last);
            assert(!slash.separates(last[0]));
            assert(path[0] == base[0]);
            assert(!starts_here(base)) by {
                if starts_here(base) {
                    assert(components_of(base)[0] == here());
                    assert(here()[0] == '.' && root()[0] == '/');
                }
            }
            if starts_here(path) {
                if base.len() > 1 {
                    assert(path[1] == base[1]);
                }
            }
            assert(components_of(path) == components_of(base).push(last));
            assert(before.push(last) == components);
        }
    }
}

/// A normal form has no `.` and no `..` among its components, and it is absolute
/// exactly if the path is.
pub proof fn law_normal_form_has_no_dots(path: Seq<char>)
    ensures
        normal(components_of(normalized_path(path))),
        forall|k: int|
            0 <= k < components_of(normalized_path(path)).len() ==> {
                &&& #[trigger] components_of(normalized_path(path))[k] != here()
                &&& components_of(normalized_path(path))[k] != up()
            },
        is_absolute(path) <==> is_absolute(normalized_path(path)),
{
    lemma_components_of_path(path);
    let c = collapsed(components_of(path));
    lemma_rendered(c);
    assert(root()[0] == '/' && up()[0] == '.' && here()[0] == '.');
    lemma_names(normalized_path(path));
    if is_absolute(normalized_path(path)) {
        assert(components_of(normalized_path(path))[0] == root());
    }
}

/// Normalizing twice is normalizing once.
pub proof fn law_normalizing_is_idempotent(path: Seq<char>)
    ensures
        normalized_path(normalized_path(path)) == normalized_path(path),
{
    lemma_components_of_path(path);
    let c = collapsed(components_of(path));
    lemma_rendered(c);
    lemma_normal_is_collapsed(c);
}

/// Every path lies within itself, and what lies within a path that lies within a
/// third lies within the third.
pub proof fn law_within_is_an_order(a: Seq<char>, b: Seq<char>, c: Seq<char>)
    ensures
        within(a, a),
        within(a, b) && within(b, c) ==> within(a, c),
{
    let x = components_of(a);
    let y = components_of(b);
    let z = components_of(c);
    assert(x.subrange(0, x.len() as int) == x);
    if within(a, b) && within(b, c) {
        assert(y.subrange(0, z.len() as int) == x.subrange(0, z.len() as int));
    }
}

/// A path lies within a directory exactly if the components of the directory are
/// its own first ones, each of them whole: `/a/bc` does not lie within `/a/b`.
pub proof fn law_within_compares_whole_components(
    path: Seq<char>,
    prefix: Seq<char>,
    k: int,
)
    requires
        0 <= k < components_of(prefix).len(),
        within(path, prefix),
    ensures
        k < components_of(path).len(),
        components_of(path)[k] == components_of(prefix)[k],
{
    let x = components_of(path);
    let y = components_of(prefix);
    assert(x.subrange(0, y.len() as int)[k] == y[k]);
}

/// A path lies within another exactly if that one has no more components, and they
/// are its own first ones. So whatever is below a directory lies within it.
pub proof fn law_within(path: Seq<char>, prefix: Seq<char>)
    ensures
        within(path, prefix) <==> components_of(prefix).len() <= components_of(path).len() && (
        forall|k: int|
            0 <= k < components_of(prefix).len() ==> #[trigger] components_of(path)[k]
                == components_of(prefix)[k]),
{
    let x = components_of(path);
    let y = components_of(prefix);
    if within(path, prefix) {
        assert forall|k: int| 0 <= k < y.len() implies #[trigger] x[k] == y[k] by {
            assert(x.subrange(0, y.len() as int)[k] == y[k]);
        }
    } else if y.len() <= x.len() && (forall|k: int|
        0 <= k < y.len() ==> #[trigger] x[k] == y[k]) {
        assert(x.subrange(0, y.len() as int) == y);
    }
}

/// The names on the two sides of a slash are the names of the whole.
proof fn lemma_names_at_slash(p: Seq<char>, q: Seq<char>)
    ensures
        names_of(p + seq!['/'] + q) == names_of(p) + names_of(q),
{
    let slash = Separator::Char('/');
    lemma_fields_at_separator(p, '/', q, slash);
    assert(p.push('/') + q == p + seq!['/'] + q);
    Seq::filter_distributes_over_add(
        fields_of(p, slash),
        fields_of(q, slash),
        |c: Seq<char>| c != here(),
    );
}

/// Whatever is appended to a path behind a slash, however many components it has and
/// whatever they are named, only adds components.
proof fn lemma_components_at_slash(p: Seq<char>, q: Seq<char>)
    requires
        p.len() > 0,
    ensures
        components_of(p + seq!['/'] + q) == components_of(p) + names_of(q),
{
    let t = p + seq!['/'] + q;
    lemma_names_at_slash(p, q);
    assert(t[0] == p[0]);
    if p.len() > 1 {
        assert(t[1] == p[1]);
    } else {
        assert(t[1] == '/');
    }
    assert(components_of(t) =~= components_of(p) + names_of(q));
}

/// Everything below a directory lies within it, and so does the directory itself.
pub proof fn law_everything_below_lies_within(directory: Seq<char>, rest: Seq<char>)
    requires
        directory.len() > 0,
    ensures
        within(directory + seq!['/'] + rest, directory),
        within(seq!['/'] + rest, seq!['/']),
        within(directory, directory),
{
    let x = components_of(directory);
    lemma_components_at_slash(directory, rest);
    assert((x + names_of(rest)).subrange(0, x.len() as int) == x);
    assert(x.subrange(0, x.len() as int) == x);
    let top = seq!['/'];
    lemma_slash_free(Seq::empty());
    assert(top + Seq::<char>::empty() == top);
    assert(components_of(top + rest).subrange(0, 1) == seq![root()]);
}

proof fn lemma_slash_free(q: Seq<char>)
    requires
        forall|i: int| 0 <= i < q.len() ==> #[trigger] q[i] != '/',
    ensures
        names_of(q) == (if q.len() == 0 || q == seq!['.'] {
            Seq::<Seq<char>>::empty()
        } else {
            seq![q]
        }),
        components_of(q) == (if q.len() == 0 {
            Seq::<Seq<char>>::empty()
        } else {
            seq![q]
        }),
        components_of(seq!['/'] + q) == (if q.len() == 0 || q == seq!['.'] {
            seq![seq!['/']]
        } else {
            seq![seq!['/'], q]
        }),
{
    let slash = Separator::Char('/');
    let nothing = Seq::<char>::empty();
    let t = seq!['/'] + q;
    reveal(Seq::filter);
    assert(names_of(nothing) == Seq::<Seq<char>>::empty());
    if q.len() == 0 {
        assert(q == nothing);
    } else {
        assert(clean_field(q, slash));
        lemma_clean_field_is_its_field(q, slash);
        assert(seq![q].drop_last() == Seq::<Seq<char>>::empty());
        assert(seq![q].last() == q);
        if q[0] == '.' && q.len() == 1 {
            assert(q == here());
        }
    }
    lemma_names_at_slash(nothing, q);
    assert(nothing + seq!['/'] + q == t);
    assert(names_of(nothing) + names_of(q) == names_of(q));
    assert(t[0] == '/');
    assert(components_of(t) =~= seq![root()] + names_of(q));
}

/// What the components of a path are, found from its end. A piece between slashes is a
/// component, unless it is empty or `.`; a slash in front of everything is one; and so
/// is a `.` there.
pub proof fn law_components_one_by_one(p: Seq<char>, q: Seq<char>)
    requires
        forall|i: int| 0 <= i < q.len() ==> #[trigger] q[i] != '/',
    ensures
        p.len() > 0 ==> components_of(p + seq!['/'] + q) == (if q.len() == 0 || q == seq!['.'] {
            components_of(p)
        } else {
            components_of(p).push(q)
        }),
        components_of(seq!['/'] + q) == (if q.len() == 0 || q == seq!['.'] {
            seq![seq!['/']]
        } else {
            seq![seq!['/'], q]
        }),
        components_of(q) == (if q.len() == 0 {
            Seq::<Seq<char>>::empty()
        } else {
            seq![q]
        }),
{
    lemma_slash_free(q);
    if p.len() > 0 {
        lemma_components_at_slash(p, q);
        assert(components_of(p) + Seq::<Seq<char>>::empty() == components_of(p));
        assert(components_of(p) + seq![q] == components_of(p).push(q));
    }
}

/// A path is absolute exactly if a slash is in front of everything.
pub proof fn law_absolute(path: Seq<char>, rest: Seq<char>)
    ensures
        is_absolute(seq!['/'] + rest),
        is_absolute(path) ==> path == seq!['/'] + path.skip(1),
        is_absolute(path) <==> path.len() > 0 && path[0] == '/',
{
    if is_absolute(path) {
        assert(path == seq!['/'] + path.skip(1));
    }
}

/// How a component is appended: a slash goes between it and what is there, unless
/// nothing is there or it ends with a slash. What is absolute replaces everything.
pub proof fn law_pushed(base: Seq<char>, component: Seq<char>)
    ensures
        component.len() > 0 && component[0] == '/' ==> pushed(base, component) == component,
        !(component.len() > 0 && component[0] == '/') ==> pushed(base, component) == (if base.len()
            == 0 || base[base.len() - 1] == '/' {
            base + component
        } else {
            base + seq!['/'] + component
        }),
{
    assert(base.push('/') + component =~= base + seq!['/'] + component);
}

/// Components are appended one after the other, and a path is made by appending its
/// components to nothing.
pub proof fn law_extended(base: Seq<char>, components: Seq<Seq<char>>, component: Seq<char>)
    ensures
        extended(base, Seq::empty()) == base,
        extended(base, components.push(component)) == pushed(
            extended(base, components),
            component,
        ),
        rendered(components) == extended(Seq::empty(), components),
{
    assert(components.push(component).drop_last() == components);
}

/// What the normal form of a path is, found from its end: an empty piece and a `.` have
/// no effect, a name is appended, with a slash in between where one is needed. At the
/// start of a path `..` has no effect either.
pub proof fn law_normalizing_piece_by_piece(p: Seq<char>, q: Seq<char>)
    requires
        forall|i: int| 0 <= i < q.len() ==> #[trigger] q[i] != '/',
    ensures
        p.len() > 0 && (q.len() == 0 || q == seq!['.']) ==> normalized_path(p + seq!['/'] + q)
            == normalized_path(p),
        p.len() > 0 && q.len() > 0 && q != seq!['.'] && q != seq!['.', '.'] ==> normalized_path(
            p + seq!['/'] + q,
        ) == ({
            let n = normalized_path(p);
            if n.len() == 0 || n[n.len() - 1] == '/' {
                n + q
            } else {
                n + seq!['/'] + q
            }
        }),
        normalized_path(seq!['/'] + q) == (if q.len() == 0 || q == seq!['.'] || q == seq![
            '.',
            '.',
        ] {
            seq!['/']
        } else {
            seq!['/'] + q
        }),
        normalized_path(q) == (if q.len() == 0 || q == seq!['.'] || q == seq!['.', '.'] {
            Seq::<char>::empty()
        } else {
            q
        }),
{
    let nothing = Seq::<char>::empty();
    let none = Seq::<Seq<char>>::empty();
    law_components_one_by_one(p, q);
    assert(root()[0] == '/' && here()[0] == '.' && up()[0] == '.');
    if p.len() > 0 && q.len() > 0 && q != here() && q != up() {
        let all = components_of(p);
        assert(all.push(q).drop_last() == all);
        assert(collapsed(all.push(q)) == collapsed(all).push(q));
        law_extended(nothing, collapsed(all), q);
        law_pushed(normalized_path(p), q);
    }
    assert(collapsed(none) == none);
    assert(rendered(none) == nothing);
    law_extended(nothing, none, root());
    law_pushed(nothing, root());
    assert(none.push(root()) == seq![root()]);
    assert(nothing + root() == root());
    assert(rendered(seq![root()]) == root());
    assert(seq![root()].drop_last() == none);
    assert(collapsed(seq![root()]) == seq![root()]);
    if q.len() > 0 {
        assert(seq![q].drop_last() == none);
        assert(none.push(q) == seq![q]);
        assert(seq![root(), q].drop_last() == seq![root()]);
        assert(seq![root(), q].last() == q);
        assert(seq![root()].push(q) == seq![root(), q]);
        law_extended(nothing, none, q);
        law_pushed(nothing, q);
        assert(nothing + q == q);
        law_extended(nothing, seq![root()], q);
        law_pushed(root(), q);
    }
}

/// What `..` does: it takes the last name off again, and has no effect where there is
/// none.
pub proof fn law_normalizing_goes_up(p: Seq<char>, t: Seq<char>, name: Seq<char>)
    requires
        p.len() > 0,
        forall|i: int| 0 <= i < name.len() ==> #[trigger] name[i] != '/',
        name.len() > 0,
        name != seq!['.'],
        name != seq!['.', '.'],
    ensures
        normalized_path(p).len() == 0 ==> normalized_path(p + seq!['/', '.', '.']).len() == 0,
        normalized_path(p) == seq!['/'] ==> normalized_path(p + seq!['/', '.', '.']) == seq!['/'],
        normalized_path(p) == ({
            let n = normalized_path(t);
            if n.len() == 0 || n[n.len() - 1] == '/' {
                n + name
            } else {
                n + seq!['/'] + name
            }
        }) ==> normalized_path(p + seq!['/', '.', '.']) == normalized_path(t),
        normalized_path(p + seq!['/'] + name + seq!['/', '.', '.']) == normalized_path(p),
{
    lemma_going_up(p, t, name);
    let q = p + seq!['/'] + name;
    law_normalizing_piece_by_piece(p, name);
    lemma_going_up(q, p, name);
}

proof fn lemma_going_up(p: Seq<char>, t: Seq<char>, name: Seq<char>)
    requires
        p.len() > 0,
        forall|i: int| 0 <= i < name.len() ==> #[trigger] name[i] != '/',
        name.len() > 0,
        name != seq!['.'],
        name != seq!['.', '.'],
    ensures
        normalized_path(p).len() == 0 ==> normalized_path(p + seq!['/', '.', '.']).len() == 0,
        normalized_path(p) == seq!['/'] ==> normalized_path(p + seq!['/', '.', '.']) == seq!['/'],
        normalized_path(p) == ({
            let n = normalized_path(t);
            if n.len() == 0 || n[n.len() - 1] == '/' {
                n + name
            } else {
                n + seq!['/'] + name
            }
        }) ==> normalized_path(p + seq!['/', '.', '.']) == normalized_path(t),
{
    let all = components_of(p);
    let d = collapsed(all);
    let base = collapsed(components_of(t));
    assert(root()[0] == '/' && here()[0] == '.' && up()[0] == '.');
    assert(up()[1] == '.' && up().len() == 2);
    law_components_one_by_one(p, up());
    assert(p + seq!['/'] + up() == p + seq!['/', '.', '.']);
    assert(up() != here());
    assert(all.push(up()).drop_last() == all);
    lemma_components_of_path(p);
    lemma_components_of_path(t);
    lemma_rendered(d);
    let above = if d.len() > 0 && d.last() != root() {
        d.drop_last()
    } else {
        d
    };
    assert(collapsed(all.push(up())) == above);
    if normalized_path(p).len() == 0 {
        assert(normalized_path(p) == Seq::<char>::empty());
        lemma_slash_free(Seq::empty());
        assert(d.len() == 0);
    }
    if normalized_path(p) == seq!['/'] {
        lemma_slash_free(Seq::empty());
        assert(seq!['/'] + Seq::<char>::empty() == seq!['/']);
        assert(d == seq![root()]);
    }
    let n = normalized_path(t);
    if normalized_path(p) == (if n.len() == 0 || n[n.len() - 1] == '/' {
        n + name
    } else {
        n + seq!['/'] + name
    }) {
        law_pushed(n, name);
        law_extended(Seq::empty(), base, name);
        let more = base.push(name);
        assert(name[0] != '/');
        assert(normal(more)) by {
            assert forall|k: int| 0 <= k < more.len() implies (k == 0 && #[trigger] more[k]
                == root()) || (is_name(more[k]) && clean_field(more[k], Separator::Char('/'))) by {
                if k < base.len() {
                    assert(more[k] == base[k]);
                }
            }
        }
        lemma_rendered(more);
        assert(d == more);
        assert(more.drop_last() == base);
    }
}

// ---------------------------------------------------------------------------
// The functions
// ---------------------------------------------------------------------------
/// The components of `path`.
pub fn components<'a>(path: &'a str) -> (r: Vec<&'a str>)
    ensures
        r.deep_view() == components_of(path@),
{
    let pieces = fields(path, Separator::Char('/'));
    let mut out: Vec<&'a str> = Vec::new();
    if !path.is_empty() {
        let first: char = path.get_char(0);
        if first == '/' {
            let lead = path.substring_char(0, 1);
            assert(lead@ == root());
            out.push(lead);
        } else if first == '.' {
            let n: usize = path.unicode_len();
            if n == 1 || path.get_char(1) == '/' {
                let lead = path.substring_char(0, 1);
                assert(lead@ == here());
                out.push(lead);
            }
        }
    }
    let ghost lead = out.deep_view();
    let ghost all = pieces.deep_view();
    let ghost keep = |c: Seq<char>| c != here();
    let n: usize = pieces.len();
    let mut i: usize = 0;
    proof {
        reveal(Seq::filter);
        assert(all.take(0).filter(keep) == Seq::<Seq<char>>::empty());
    }
    while i < n
        invariant
            n == pieces@.len(),
            all == pieces.deep_view(),
            keep == (|c: Seq<char>| c != here()),
            i <= n,
            out.deep_view() == lead + all.take(i as int).filter(keep),
        decreases n - i,
    {
        let piece: &'a str = pieces[i];
        let ghost before = out.deep_view();
        proof {
            reveal_strlit(".");
            reveal(Seq::filter);
            assert("."@ == here());
            assert(all.take(i + 1).drop_last() == all.take(i as int));
            assert(all.take(i + 1).last() == piece@);
        }
        if !same_text(piece, ".") {
            out.push(piece);
            assert(out.deep_view() == before.push(piece@));
        }
        i += 1;
    }
    assert(all.take(n as int) == all);
    assert(names_of(path@) == all.filter(keep));
    out
}

/// `base` with one more component.
pub fn push_component(base: String, component: &str) -> (r: String)
    ensures
        r@ == pushed(base@, component@),
{
    if !component.is_empty() && component.get_char(0) == '/' {
        return component.to_owned();
    }
    let n: usize = base.as_str().unicode_len();
    if n == 0 || base.as_str().get_char(n - 1) == '/' {
        base.concat(component)
    } else {
        proof {
            reveal_strlit("/");
        }
        let r = base.concat("/").concat(component);
        assert("/"@ == seq!['/']);
        assert(r@ == base@.push('/') + component@);
        r
    }
}

/// `base` with the components from position `from` on.
pub fn extend_path(base: String, components: &Vec<&str>, from: usize) -> (r: String)
    requires
        from <= components@.len(),
    ensures
        r@ == extended(base@, components.deep_view().skip(from as int)),
{
    let ghost start = base@;
    let ghost all = components.deep_view().skip(from as int);
    let n: usize = components.len();
    let mut out: String = base;
    let mut i: usize = from;
    assert(all.take(0) == Seq::<Seq<char>>::empty());
    while i < n
        invariant
            n == components@.len(),
            all == components.deep_view().skip(from as int),
            from <= i <= n,
            out@ == extended(start, all.take(i - from)),
        decreases n - i,
    {
        assert(all.take(i - from + 1).drop_last() == all.take(i - from));
        assert(all.take(i - from + 1).last() == components@[i as int]@);
        out = push_component(out, components[i]);
        i += 1;
    }
    assert(all.take(n - from) == all);
    out
}

/// The path that is made of the first `count` of `components`.
pub fn render_first(components: &Vec<&str>, count: usize) -> (r: String)
    requires
        count <= components@.len(),
    ensures
        r@ == rendered(components.deep_view().take(count as int)),
{
    let ghost all = components.deep_view();
    let mut out: String = String::new();
    let mut i: usize = 0;
    assert(all.take(0) == Seq::<Seq<char>>::empty());
    while i < count
        invariant
            all == components.deep_view(),
            count <= components@.len(),
            i <= count,
            out@ == rendered(all.take(i as int)),
        decreases count - i,
    {
        assert(all.take(i + 1).drop_last() == all.take(i as int));
        assert(all.take(i + 1).last() == components@[i as int]@);
        out = push_component(out, components[i]);
        i += 1;
    }
    out
}

/// Brings a path into its normal form: takes out `.`, and `..` together with the
/// component in front of it. The path need not exist.
pub fn normalize_path(path: &str) -> (r: String)
    ensures
        r@ == normalized_path(path@),
{
    let parts = components(path);
    let ghost all = parts.deep_view();
    let mut kept: Vec<&str> = Vec::new();
    let n: usize = parts.len();
    let mut i: usize = 0;
    assert(all.take(0) == Seq::<Seq<char>>::empty());
    assert(kept.deep_view() == collapsed(all.take(0)));
    while i < n
        invariant
            n == parts@.len(),
            all == parts.deep_view(),
            i <= n,
            kept.deep_view() == collapsed(all.take(i as int)),
        decreases n - i,
    {
        let part: &str = parts[i];
        let ghost before = kept.deep_view();
        proof {
            reveal_strlit("/");
            reveal_strlit(".");
            reveal_strlit("..");
            assert("/"@ == root());
            assert("."@ == here());
            assert(".."@ == up());
            assert(all.take(i + 1).drop_last() == all.take(i as int));
            assert(all.take(i + 1).last() == part@);
        }
        if same_text(part, "..") {
            let m: usize = kept.len();
            if m > 0 {
                assert(before.last() == kept@[m - 1]@);
                if !same_text(kept[m - 1], "/") {
                    let _ = kept.pop();
                    assert(kept.deep_view() == before.drop_last());
                }
            }
        } else if !same_text(part, ".") {
            kept.push(part);
            assert(kept.deep_view() == before.push(part@));
        }
        i += 1;
    }
    assert(all.take(n as int) == all);
    let m: usize = kept.len();
    assert(kept.deep_view().take(m as int) == kept.deep_view());
    render_first(&kept, m)
}

/// Tells whether `path` is `prefix` or lies below it.
pub fn is_within(path: &str, prefix: &str) -> (r: bool)
    ensures
        r == within(path@, prefix@),
{
    let a = components(path);
    let b = components(prefix);
    let ghost x = a.deep_view();
    let ghost y = b.deep_view();
    let n: usize = b.len();
    if n > a.len() {
        return false;
    }
    let mut i: usize = 0;
    while i < n
        invariant
            x == a.deep_view(),
            y == b.deep_view(),
            x == components_of(path@),
            y == components_of(prefix@),
            n == b@.len(),
            n <= a@.len(),
            i <= n,
            forall|k: int| 0 <= k < i ==> #[trigger] x[k] == y[k],
        decreases n - i,
    {
        assert(x[i as int] == a@[i as int]@);
        assert(y[i as int] == b@[i as int]@);
        if !same_text(a[i], b[i]) {
            assert(x.subrange(0, n as int)[i as int] != y[i as int]);
            return false;
        }
        i += 1;
    }
    assert(x.subrange(0, n as int) == y);
    true
}

} // verus!
