//! What holds of the order in which modules are evaluated.

use vstd::prelude::*;

use crate::resolver::ModuleMap;

verus! {

broadcast use vstd::seq_lib::group_seq_properties;

/// Whether a visit that began with `visited` and `order` may end with `seen` and `done`: the new
/// part of the order holds what was newly visited, each module once.
pub open spec fn grows(
    visited: Set<Seq<char>>,
    order: Seq<Seq<char>>,
    seen: Set<Seq<char>>,
    done: Seq<Seq<char>>,
) -> bool {
    &&& order.len() <= done.len()
    &&& done.take(order.len() as int) == order
    &&& done.skip(order.len() as int).no_duplicates()
    &&& forall|x: Seq<char>| #[trigger]
        seen.contains(x) <==> visited.contains(x) || done.skip(order.len() as int).contains(x)
    &&& forall|x: Seq<char>|
        visited.contains(x) ==> !(#[trigger] done.skip(order.len() as int).contains(x))
}

proof fn lemma_push_contains(s: Seq<Seq<char>>, a: Seq<char>, x: Seq<char>)
    ensures
        s.push(a).contains(x) <==> s.contains(x) || x == a,
{
    if s.contains(x) {
        let i = choose|i: int| 0 <= i < s.len() && s[i] == x;
        assert(s.push(a)[i] == x);
    }
    assert(s.push(a)[s.len() as int] == a);
}

/// Visiting a module leaves what was visited and ordered before in place, and appends each newly
/// visited module once, the module itself last.
pub(crate) proof fn lemma_visit_grows(
    m: ModuleMap,
    path: Seq<char>,
    visited: Set<Seq<char>>,
    order: Seq<Seq<char>>,
)
    requires
        m.dom().finite(),
    ensures
        ({
            let (seen, done) = crate::resolver::visit(m, path, visited, order);
            &&& grows(visited, order, seen, done)
            &&& visited.subset_of(seen)
            &&& seen.contains(path)
            &&& !visited.contains(path) ==> done.len() > order.len() && done.last() == path
        }),
    decreases crate::resolver::unvisited(m, visited), 0nat,
{
    let (seen, done) = crate::resolver::visit(m, path, visited, order);
    let new = done.skip(order.len() as int);
    if visited.contains(path) {
        assert(new == Seq::<Seq<char>>::empty());
    } else if crate::resolver::is_ready(m, path) {
        assert(m.dom().difference(visited.insert(path)) == m.dom().difference(visited).remove(
            path,
        ));
        let deps = crate::resolver::deps_of(m, path);
        lemma_visit_all_grows(m, deps, visited.insert(path), order);
        let (_, inner) = crate::resolver::visit_all(m, deps, visited.insert(path), order);
        let added = inner.skip(order.len() as int);
        assert(new == added.push(path));
        assert(done.take(order.len() as int) == inner.take(order.len() as int));
        assert(visited.insert(path).contains(path));
        assert(!added.contains(path));
        assert forall|x: Seq<char>| #[trigger] new.contains(x) <==> added.contains(x) || x
            == path by {
            lemma_push_contains(added, path, x);
        }
    } else {
        assert(new == Seq::<Seq<char>>::empty().push(path));
        assert(done.take(order.len() as int) == order);
        assert forall|x: Seq<char>| #[trigger] new.contains(x) <==> x == path by {
            lemma_push_contains(Seq::empty(), path, x);
        }
    }
}

/// Visiting the modules of a list leaves what was visited and ordered before in place, and
/// appends each newly visited module once.
pub(crate) proof fn lemma_visit_all_grows(
    m: ModuleMap,
    paths: Seq<Seq<char>>,
    visited: Set<Seq<char>>,
    order: Seq<Seq<char>>,
)
    requires
        m.dom().finite(),
    ensures
        ({
            let (seen, done) = crate::resolver::visit_all(m, paths, visited, order);
            &&& grows(visited, order, seen, done)
            &&& visited.subset_of(seen)
            &&& forall|i: int| 0 <= i < paths.len() ==> seen.contains(#[trigger] paths[i])
        }),
    decreases crate::resolver::unvisited(m, visited), paths.len(),
{
    let (seen, done) = crate::resolver::visit_all(m, paths, visited, order);
    if paths.len() == 0 {
        assert(done.skip(order.len() as int) == Seq::<Seq<char>>::empty());
    } else {
        let (v, o) = crate::resolver::visit(m, paths.first(), visited, order);
        lemma_visit_grows(m, paths.first(), visited, order);
        vstd::set_lib::lemma_len_subset(m.dom().difference(v), m.dom().difference(visited));
        lemma_visit_all_grows(m, paths.drop_first(), v, o);
        let first = o.skip(order.len() as int);
        let rest = done.skip(o.len() as int);
        assert(done.skip(order.len() as int) == first + rest) by {
            assert forall|i: int| 0 <= i < first.len() implies done[order.len() + i]
                == first[i] by {
                assert(done.take(o.len() as int)[order.len() + i] == o[order.len() + i]);
            }
        }
        assert(done.take(order.len() as int) == order) by {
            assert(done.take(o.len() as int).take(order.len() as int) == done.take(
                order.len() as int,
            ));
        }
        assert forall|i: int, j: int|
            0 <= i < first.len() && 0 <= j < rest.len() implies first[i] != rest[j] by {
            assert(first.contains(first[i]));
            assert(rest.contains(rest[j]));
        }
        assert forall|i: int| 0 <= i < paths.len() implies seen.contains(#[trigger] paths[i]) by {
            if i > 0 {
                assert(paths[i] == paths.drop_first()[i - 1]);
            }
        }
    }
}

/// Whether each dependency of each module of the order stands before the module, or in `before`.
pub open spec fn dependencies_first(
    m: ModuleMap,
    before: Set<Seq<char>>,
    order: Seq<Seq<char>>,
) -> bool {
    forall|i: int, k: int|
        #![trigger crate::resolver::deps_of(m, order[i])[k]]
        0 <= i < order.len() && 0 <= k < crate::resolver::deps_of(m, order[i]).len()
            ==> before.contains(crate::resolver::deps_of(m, order[i])[k]) || order.take(
            i,
        ).contains(crate::resolver::deps_of(m, order[i])[k])
}

/// Whether `b` is `a` or a dependency of it, at most `n` imports away, by way of modules that are
/// not in `avoid`.
pub open spec fn is_within(
    m: ModuleMap,
    avoid: Set<Seq<char>>,
    a: Seq<char>,
    b: Seq<char>,
    n: nat,
) -> bool
    decreases n,
{
    !avoid.contains(a) && (a == b || n > 0 && exists|i: int|
        0 <= i < crate::resolver::deps_of(m, a).len() && is_within(
            m,
            avoid,
            #[trigger] crate::resolver::deps_of(m, a)[i],
            b,
            (n - 1) as nat,
        ))
}

/// Whether `b` is `a` or a dependency of it, directly or by way of others, where none of them is in
/// `avoid`.
pub open spec fn reaches(
    m: ModuleMap,
    avoid: Set<Seq<char>>,
    a: Seq<char>,
    b: Seq<char>,
) -> bool {
    exists|n: nat| is_within(m, avoid, a, b, n)
}

/// Whether `b` is `a` or a dependency of it, directly or by way of others.
pub open spec fn depends_on(m: ModuleMap, a: Seq<char>, b: Seq<char>) -> bool {
    reaches(m, Set::empty(), a, b)
}

/// Whether `b` is a dependency of `a`, directly or by way of others.
pub open spec fn leads_to(m: ModuleMap, a: Seq<char>, b: Seq<char>) -> bool {
    exists|i: int|
        0 <= i < crate::resolver::deps_of(m, a).len() && depends_on(
            m,
            #[trigger] crate::resolver::deps_of(m, a)[i],
            b,
        )
}

/// Whether neither a module nor anything that it depends on depends on itself.
pub open spec fn is_acyclic_from(m: ModuleMap, path: Seq<char>) -> bool {
    forall|x: Seq<char>| #[trigger] depends_on(m, path, x) ==> !leads_to(m, x, x)
}

proof fn lemma_within_step(
    m: ModuleMap,
    avoid: Set<Seq<char>>,
    a: Seq<char>,
    b: Seq<char>,
    n: nat,
    k: int,
)
    requires
        is_within(m, avoid, a, b, n),
        0 <= k < crate::resolver::deps_of(m, b).len(),
        !avoid.contains(crate::resolver::deps_of(m, b)[k]),
    ensures
        is_within(m, avoid, a, crate::resolver::deps_of(m, b)[k], n + 1),
    decreases n,
{
    let d = crate::resolver::deps_of(m, b)[k];
    if a == b {
        assert(is_within(m, avoid, crate::resolver::deps_of(m, a)[k], d, n));
    } else {
        let i = choose|i: int|
            0 <= i < crate::resolver::deps_of(m, a).len() && is_within(
                m,
                avoid,
                #[trigger] crate::resolver::deps_of(m, a)[i],
                b,
                (n - 1) as nat,
            );
        lemma_within_step(m, avoid, crate::resolver::deps_of(m, a)[i], b, (n - 1) as nat, k);
        assert(is_within(m, avoid, crate::resolver::deps_of(m, a)[i], d, n));
    }
}

/// What `a` depends on by way of `b` it depends on.
proof fn lemma_reaches_step(
    m: ModuleMap,
    avoid: Set<Seq<char>>,
    a: Seq<char>,
    b: Seq<char>,
    k: int,
)
    requires
        reaches(m, avoid, a, b),
        0 <= k < crate::resolver::deps_of(m, b).len(),
        !avoid.contains(crate::resolver::deps_of(m, b)[k]),
    ensures
        reaches(m, avoid, a, crate::resolver::deps_of(m, b)[k]),
{
    let n = choose|n: nat| is_within(m, avoid, a, b, n);
    lemma_within_step(m, avoid, a, b, n, k);
}

proof fn lemma_leads_to_step(m: ModuleMap, a: Seq<char>, b: Seq<char>, k: int)
    requires
        leads_to(m, a, b),
        0 <= k < crate::resolver::deps_of(m, b).len(),
    ensures
        leads_to(m, a, crate::resolver::deps_of(m, b)[k]),
{
    let i = choose|i: int|
        0 <= i < crate::resolver::deps_of(m, a).len() && depends_on(
            m,
            #[trigger] crate::resolver::deps_of(m, a)[i],
            b,
        );
    lemma_reaches_step(m, Set::empty(), crate::resolver::deps_of(m, a)[i], b, k);
}

proof fn lemma_push_dependencies_first(
    m: ModuleMap,
    before: Set<Seq<char>>,
    order: Seq<Seq<char>>,
    path: Seq<char>,
)
    requires
        dependencies_first(m, before, order),
        forall|k: int|
            0 <= k < crate::resolver::deps_of(m, path).len() ==> before.contains(
                #[trigger] crate::resolver::deps_of(m, path)[k],
            ) || order.contains(crate::resolver::deps_of(m, path)[k]),
    ensures
        dependencies_first(m, before, order.push(path)),
{
    let longer = order.push(path);
    assert forall|i: int, k: int|
        #![trigger crate::resolver::deps_of(m, longer[i])[k]]
        0 <= i < longer.len() && 0 <= k < crate::resolver::deps_of(m, longer[i]).len() implies
        before.contains(crate::resolver::deps_of(m, longer[i])[k]) || longer.take(i).contains(
        crate::resolver::deps_of(m, longer[i])[k],
    ) by {
        if i < order.len() {
            assert(longer[i] == order[i]);
            assert(longer.take(i) == order.take(i));
        } else {
            assert(longer.take(i) == order);
        }
    }
}

/// Whether what has been visited was so before, is in the order, or waits for its dependencies.
spec fn accounted(
    before: Set<Seq<char>>,
    waiting: Set<Seq<char>>,
    visited: Set<Seq<char>>,
    order: Seq<Seq<char>>,
) -> bool {
    forall|x: Seq<char>| #[trigger]
        visited.contains(x) ==> before.contains(x) || order.contains(x) || waiting.contains(x)
}

proof fn lemma_skip_contains(
    order: Seq<Seq<char>>,
    done: Seq<Seq<char>>,
    base: int,
    x: Seq<char>,
)
    requires
        0 <= base <= order.len() <= done.len(),
        done.take(order.len() as int) == order,
        order.skip(base).contains(x),
    ensures
        done.skip(base).contains(x),
{
    let i = choose|i: int| 0 <= i < order.skip(base).len() && order.skip(base)[i] == x;
    assert(done.take(order.len() as int)[base + i] == x);
    assert(done.skip(base)[i] == x);
}

/// Visiting puts dependencies before the modules that import them, where nothing that `root`
/// depends on depends on itself. Each module of `waiting` depends on the module to visit.
proof fn lemma_visit_dependencies_first(
    m: ModuleMap,
    root: Seq<char>,
    before: Set<Seq<char>>,
    waiting: Set<Seq<char>>,
    base: int,
    path: Seq<char>,
    visited: Set<Seq<char>>,
    order: Seq<Seq<char>>,
)
    requires
        m.dom().finite(),
        is_acyclic_from(m, root),
        depends_on(m, root, path),
        0 <= base <= order.len(),
        dependencies_first(m, before, order.skip(base)),
        accounted(before, waiting, visited, order.skip(base)),
        forall|g: Seq<char>| #[trigger] waiting.contains(g) ==> leads_to(m, g, path),
    ensures
        ({
            let (seen, done) = crate::resolver::visit(m, path, visited, order);
            &&& dependencies_first(m, before, done.skip(base))
            &&& accounted(before, waiting, seen, done.skip(base))
            &&& before.contains(path) || done.skip(base).contains(path)
        }),
    decreases crate::resolver::unvisited(m, visited), 0nat,
{
    lemma_visit_grows(m, path, visited, order);
    let (seen, done) = crate::resolver::visit(m, path, visited, order);
    assert(!waiting.contains(path));
    if visited.contains(path) {
    } else if crate::resolver::is_ready(m, path) {
        assert(m.dom().difference(visited.insert(path)) == m.dom().difference(visited).remove(
            path,
        ));
        let deps = crate::resolver::deps_of(m, path);
        let marked = visited.insert(path);
        let inside = waiting.insert(path);
        assert forall|i: int| 0 <= i < deps.len() implies depends_on(
            m,
            root,
            #[trigger] deps[i],
        ) by {
            lemma_reaches_step(m, Set::empty(), root, path, i);
        }
        assert forall|g: Seq<char>, i: int|
            #![trigger inside.contains(g), deps[i]]
            inside.contains(g) && 0 <= i < deps.len() implies leads_to(m, g, deps[i]) by {
            if g == path {
                assert(is_within(m, Set::empty(), deps[i], deps[i], 0));
                assert(depends_on(m, deps[i], deps[i]));
            } else {
                lemma_leads_to_step(m, g, path, i);
            }
        }
        lemma_visit_all_dependencies_first(m, root, before, inside, base, deps, marked, order);
        lemma_visit_all_grows(m, deps, marked, order);
        let (v, inner) = crate::resolver::visit_all(m, deps, marked, order);
        lemma_push_dependencies_first(m, before, inner.skip(base), path);
        assert(done.skip(base) == inner.skip(base).push(path));
        assert forall|x: Seq<char>| #[trigger] seen.contains(x) implies before.contains(x)
            || done.skip(base).contains(x) || waiting.contains(x) by {
            lemma_push_contains(inner.skip(base), path, x);
            assert(v.contains(x));
        }
        lemma_push_contains(inner.skip(base), path, path);
    } else {
        assert(crate::resolver::deps_of(m, path).len() == 0);
        lemma_push_dependencies_first(m, before, order.skip(base), path);
        assert(done.skip(base) == order.skip(base).push(path));
        assert forall|x: Seq<char>| #[trigger] seen.contains(x) implies before.contains(x)
            || done.skip(base).contains(x) || waiting.contains(x) by {
            lemma_push_contains(order.skip(base), path, x);
            assert(x == path || visited.contains(x));
        }
        lemma_push_contains(order.skip(base), path, path);
    }
}

proof fn lemma_visit_all_dependencies_first(
    m: ModuleMap,
    root: Seq<char>,
    before: Set<Seq<char>>,
    waiting: Set<Seq<char>>,
    base: int,
    paths: Seq<Seq<char>>,
    visited: Set<Seq<char>>,
    order: Seq<Seq<char>>,
)
    requires
        m.dom().finite(),
        is_acyclic_from(m, root),
        forall|i: int| 0 <= i < paths.len() ==> depends_on(m, root, #[trigger] paths[i]),
        0 <= base <= order.len(),
        dependencies_first(m, before, order.skip(base)),
        accounted(before, waiting, visited, order.skip(base)),
        forall|g: Seq<char>, i: int|
            #![trigger waiting.contains(g), paths[i]]
            waiting.contains(g) && 0 <= i < paths.len() ==> leads_to(m, g, paths[i]),
    ensures
        ({
            let (seen, done) = crate::resolver::visit_all(m, paths, visited, order);
            &&& dependencies_first(m, before, done.skip(base))
            &&& accounted(before, waiting, seen, done.skip(base))
            &&& forall|i: int|
                0 <= i < paths.len() ==> before.contains(#[trigger] paths[i]) || done.skip(
                    base,
                ).contains(paths[i])
        }),
    decreases crate::resolver::unvisited(m, visited), paths.len(),
{
    if paths.len() > 0 {
        let first = paths[0];
        let (v, o) = crate::resolver::visit(m, first, visited, order);
        let rest = paths.drop_first();
        lemma_visit_dependencies_first(m, root, before, waiting, base, first, visited, order);
        lemma_visit_grows(m, first, visited, order);
        vstd::set_lib::lemma_len_subset(m.dom().difference(v), m.dom().difference(visited));
        assert forall|i: int| 0 <= i < rest.len() implies depends_on(
            m,
            root,
            #[trigger] rest[i],
        ) by {
            assert(rest[i] == paths[i + 1]);
        }
        assert forall|g: Seq<char>, i: int|
            #![trigger waiting.contains(g), rest[i]]
            waiting.contains(g) && 0 <= i < rest.len() implies leads_to(m, g, rest[i]) by {
            assert(rest[i] == paths[i + 1]);
        }
        lemma_visit_all_dependencies_first(m, root, before, waiting, base, rest, v, o);
        lemma_visit_all_grows(m, rest, v, o);
        let (seen, done) = crate::resolver::visit_all(m, paths, visited, order);
        assert forall|i: int| 0 <= i < paths.len() implies before.contains(#[trigger] paths[i])
            || done.skip(base).contains(paths[i]) by {
            if i > 0 {
                assert(paths[i] == rest[i - 1]);
            } else if !before.contains(first) {
                lemma_skip_contains(o, done, base, first);
            }
        }
    }
}

/// Visiting reaches only the module and what it depends on, by way of modules that are not in
/// `avoid`, all of which have been visited.
proof fn lemma_visit_reaches(
    m: ModuleMap,
    avoid: Set<Seq<char>>,
    path: Seq<char>,
    visited: Set<Seq<char>>,
    order: Seq<Seq<char>>,
)
    requires
        m.dom().finite(),
        avoid.subset_of(visited),
    ensures
        forall|x: Seq<char>| #[trigger]
            crate::resolver::visit(m, path, visited, order).0.contains(x) ==> visited.contains(x)
                || reaches(m, avoid, path, x),
    decreases crate::resolver::unvisited(m, visited), 0nat,
{
    if !visited.contains(path) {
        assert(is_within(m, avoid, path, path, 0));
        if crate::resolver::is_ready(m, path) {
            assert(m.dom().difference(visited.insert(path)) == m.dom().difference(
                visited,
            ).remove(path));
            let deps = crate::resolver::deps_of(m, path);
            lemma_visit_all_reaches(m, avoid, path, deps, visited.insert(path), order);
            let (seen, _) = crate::resolver::visit(m, path, visited, order);
            let (inner, _) = crate::resolver::visit_all(m, deps, visited.insert(path), order);
            assert(seen == inner);
            assert forall|x: Seq<char>| #[trigger] seen.contains(x) implies visited.contains(x)
                || reaches(m, avoid, path, x) by {
                assert(inner.contains(x));
            }
        }
    }
}

proof fn lemma_visit_all_reaches(
    m: ModuleMap,
    avoid: Set<Seq<char>>,
    from: Seq<char>,
    paths: Seq<Seq<char>>,
    visited: Set<Seq<char>>,
    order: Seq<Seq<char>>,
)
    requires
        m.dom().finite(),
        avoid.subset_of(visited),
        !avoid.contains(from),
        forall|i: int|
            0 <= i < paths.len() ==> crate::resolver::deps_of(m, from).contains(
                #[trigger] paths[i],
            ),
    ensures
        forall|x: Seq<char>| #[trigger]
            crate::resolver::visit_all(m, paths, visited, order).0.contains(x)
                ==> visited.contains(x) || reaches(m, avoid, from, x),
    decreases crate::resolver::unvisited(m, visited), paths.len(),
{
    if paths.len() > 0 {
        let first = paths.first();
        let (v, o) = crate::resolver::visit(m, first, visited, order);
        lemma_visit_grows(m, first, visited, order);
        vstd::set_lib::lemma_len_subset(m.dom().difference(v), m.dom().difference(visited));
        lemma_visit_reaches(m, avoid, first, visited, order);
        assert forall|x: Seq<char>| #[trigger] v.contains(x) implies visited.contains(x)
            || reaches(m, avoid, from, x) by {
            if !visited.contains(x) {
                let n = choose|n: nat| is_within(m, avoid, first, x, n);
                assert(paths[0] == first);
                let i = choose|i: int|
                    0 <= i < crate::resolver::deps_of(m, from).len() && crate::resolver::deps_of(
                        m,
                        from,
                    )[i] == first;
                assert(is_within(m, avoid, crate::resolver::deps_of(m, from)[i], x, n));
                assert(is_within(m, avoid, from, x, n + 1));
            }
        }
        assert forall|i: int| 0 <= i < paths.drop_first().len() implies crate::resolver::deps_of(
            m,
            from,
        ).contains(#[trigger] paths.drop_first()[i]) by {
            assert(paths.drop_first()[i] == paths[i + 1]);
        }
        lemma_visit_all_reaches(m, avoid, from, paths.drop_first(), v, o);
        let (seen, _) = crate::resolver::visit_all(m, paths, visited, order);
        let (rest, _) = crate::resolver::visit_all(m, paths.drop_first(), v, o);
        assert(seen == rest);
        assert forall|x: Seq<char>| #[trigger] seen.contains(x) implies visited.contains(x)
            || reaches(m, avoid, from, x) by {
            assert(rest.contains(x));
            assert(v.contains(x) || reaches(m, avoid, from, x));
        }
    }
}

/// Whether the dependencies of what was newly visited have been visited.
spec fn is_closed(m: ModuleMap, visited: Set<Seq<char>>, seen: Set<Seq<char>>) -> bool {
    forall|x: Seq<char>, k: int|
        #![trigger crate::resolver::deps_of(m, x)[k]]
        seen.contains(x) && !visited.contains(x) && 0 <= k < crate::resolver::deps_of(m, x).len()
            ==> seen.contains(crate::resolver::deps_of(m, x)[k])
}

proof fn lemma_visit_closed(
    m: ModuleMap,
    path: Seq<char>,
    visited: Set<Seq<char>>,
    order: Seq<Seq<char>>,
)
    requires
        m.dom().finite(),
    ensures
        is_closed(m, visited, crate::resolver::visit(m, path, visited, order).0),
    decreases crate::resolver::unvisited(m, visited), 0nat,
{
    if !visited.contains(path) && crate::resolver::is_ready(m, path) {
        let marked = visited.insert(path);
        assert(m.dom().difference(marked) == m.dom().difference(visited).remove(path));
        let deps = crate::resolver::deps_of(m, path);
        lemma_visit_all_closed(m, deps, marked, order);
        lemma_visit_all_grows(m, deps, marked, order);
        let (seen, _) = crate::resolver::visit_all(m, deps, marked, order);
        assert forall|x: Seq<char>, k: int|
            #![trigger crate::resolver::deps_of(m, x)[k]]
            seen.contains(x) && !visited.contains(x) && 0 <= k < crate::resolver::deps_of(
                m,
                x,
            ).len() implies seen.contains(crate::resolver::deps_of(m, x)[k]) by {
            if x == path {
                assert(seen.contains(deps[k]));
            }
        }
    }
}

proof fn lemma_visit_all_closed(
    m: ModuleMap,
    paths: Seq<Seq<char>>,
    visited: Set<Seq<char>>,
    order: Seq<Seq<char>>,
)
    requires
        m.dom().finite(),
    ensures
        is_closed(m, visited, crate::resolver::visit_all(m, paths, visited, order).0),
    decreases crate::resolver::unvisited(m, visited), paths.len(),
{
    if paths.len() > 0 {
        let (v, o) = crate::resolver::visit(m, paths.first(), visited, order);
        lemma_visit_grows(m, paths.first(), visited, order);
        vstd::set_lib::lemma_len_subset(m.dom().difference(v), m.dom().difference(visited));
        lemma_visit_closed(m, paths.first(), visited, order);
        lemma_visit_all_closed(m, paths.drop_first(), v, o);
        lemma_visit_all_grows(m, paths.drop_first(), v, o);
    }
}

proof fn lemma_closed_reaches(
    m: ModuleMap,
    visited: Set<Seq<char>>,
    seen: Set<Seq<char>>,
    a: Seq<char>,
    b: Seq<char>,
    n: nat,
)
    requires
        is_closed(m, visited, seen),
        seen.contains(a),
        is_within(m, visited, a, b, n),
    ensures
        seen.contains(b),
        !visited.contains(b),
    decreases n,
{
    if a != b {
        let i = choose|i: int|
            0 <= i < crate::resolver::deps_of(m, a).len() && is_within(
                m,
                visited,
                #[trigger] crate::resolver::deps_of(m, a)[i],
                b,
                (n - 1) as nat,
            );
        let dep = crate::resolver::deps_of(m, a)[i];
        lemma_closed_reaches(m, visited, seen, dep, b, (n - 1) as nat);
    }
}

/// A visit keeps the order that there was, and appends each newly visited module once, the module
/// asked for last.
pub proof fn law_each_module_once(
    m: ModuleMap,
    path: Seq<char>,
    visited: Set<Seq<char>>,
    order: Seq<Seq<char>>,
)
    requires
        m.dom().finite(),
    ensures
        ({
            let done = crate::resolver::visit(m, path, visited, order).1;
            let new = done.skip(order.len() as int);
            &&& order.is_prefix_of(done)
            &&& new.no_duplicates()
            &&& forall|x: Seq<char>| #[trigger] new.contains(x) ==> !visited.contains(x)
            &&& !visited.contains(path) ==> new.len() > 0 && new.last() == path
        }),
{
    lemma_visit_grows(m, path, visited, order);
    let done = crate::resolver::visit(m, path, visited, order).1;
    assert(done.subrange(0, order.len() as int) == done.take(order.len() as int));
}

/// A visit appends dependencies before the modules that import them, except for what had been
/// visited, where nothing that the module depends on depends on itself.
pub proof fn law_dependencies_first(
    m: ModuleMap,
    path: Seq<char>,
    visited: Set<Seq<char>>,
    order: Seq<Seq<char>>,
)
    requires
        m.dom().finite(),
        is_acyclic_from(m, path),
    ensures
        dependencies_first(
            m,
            visited,
            crate::resolver::visit(m, path, visited, order).1.skip(order.len() as int),
        ),
{
    let base: int = order.len() as int;
    assert(order.skip(base) == Seq::<Seq<char>>::empty());
    assert(is_within(m, Set::empty(), path, path, 0));
    lemma_visit_dependencies_first(m, path, visited, Set::empty(), base, path, visited, order);
}

/// A visit appends the module and all that it depends on by way of modules that had not been
/// visited, and nothing else. Modules may depend on themselves, and need not be known.
pub proof fn law_order_is_complete(
    m: ModuleMap,
    path: Seq<char>,
    visited: Set<Seq<char>>,
    order: Seq<Seq<char>>,
    other: Seq<char>,
)
    requires
        m.dom().finite(),
    ensures
        crate::resolver::visit(m, path, visited, order).1.skip(order.len() as int).contains(other)
            <==> reaches(m, visited, path, other),
{
    let (seen, done) = crate::resolver::visit(m, path, visited, order);
    lemma_visit_reaches(m, visited, path, visited, order);
    lemma_visit_grows(m, path, visited, order);
    lemma_visit_closed(m, path, visited, order);
    if reaches(m, visited, path, other) {
        let n = choose|n: nat| is_within(m, visited, path, other, n);
        lemma_closed_reaches(m, visited, seen, path, other, n);
    }
    assert(done.skip(order.len() as int).contains(other) <==> seen.contains(other)
        && !visited.contains(other));
}

proof fn lemma_rank_falls(
    m: ModuleMap,
    rank: spec_fn(Seq<char>) -> nat,
    a: Seq<char>,
    b: Seq<char>,
    n: nat,
)
    requires
        crate::resolver::is_ranked(m, rank),
        is_within(m, Set::empty(), a, b, n),
    ensures
        rank(b) <= rank(a),
    decreases n,
{
    if a != b {
        let i = choose|i: int|
            0 <= i < crate::resolver::deps_of(m, a).len() && is_within(
                m,
                Set::empty(),
                #[trigger] crate::resolver::deps_of(m, a)[i],
                b,
                (n - 1) as nat,
            );
        lemma_rank_falls(m, rank, crate::resolver::deps_of(m, a)[i], b, (n - 1) as nat);
    }
}

/// Where a rank falls from each module to its dependencies, no module depends on itself.
pub proof fn law_sound_is_acyclic(m: ModuleMap, path: Seq<char>)
    requires
        crate::resolver::is_sound(m),
    ensures
        is_acyclic_from(m, path),
{
    let rank = choose|rank: spec_fn(Seq<char>) -> nat| crate::resolver::is_ranked(m, rank);
    assert forall|x: Seq<char>| #[trigger] depends_on(m, path, x) implies !leads_to(m, x, x) by {
        if leads_to(m, x, x) {
            let i = choose|i: int|
                0 <= i < crate::resolver::deps_of(m, x).len() && depends_on(
                    m,
                    #[trigger] crate::resolver::deps_of(m, x)[i],
                    x,
                );
            let dep = crate::resolver::deps_of(m, x)[i];
            let n = choose|n: nat| is_within(m, Set::empty(), dep, x, n);
            lemma_rank_falls(m, rank, dep, x, n);
        }
    }
}

/// A list without what is in a set.
pub open spec fn left_out(list: Seq<Seq<char>>, set: Set<Seq<char>>) -> Seq<Seq<char>>
    decreases list.len(),
{
    if list.len() == 0 {
        Seq::empty()
    } else if set.contains(list.last()) {
        left_out(list.drop_last(), set)
    } else {
        left_out(list.drop_last(), set).push(list.last())
    }
}

proof fn lemma_left_out_adds(a: Seq<Seq<char>>, b: Seq<Seq<char>>, set: Set<Seq<char>>)
    ensures
        left_out(a + b, set) == left_out(a, set) + left_out(b, set),
    decreases b.len(),
{
    if b.len() == 0 {
        assert(a + b == a);
    } else {
        lemma_left_out_adds(a, b.drop_last(), set);
        assert((a + b).drop_last() == a + b.drop_last());
    }
}

proof fn lemma_left_out_all(list: Seq<Seq<char>>, set: Set<Seq<char>>)
    requires
        forall|i: int| 0 <= i < list.len() ==> set.contains(#[trigger] list[i]),
    ensures
        left_out(list, set) == Seq::<Seq<char>>::empty(),
    decreases list.len(),
{
    if list.len() > 0 {
        let front = list.drop_last();
        assert forall|i: int| 0 <= i < front.len() implies set.contains(#[trigger] front[i]) by {
            assert(front[i] == list[i]);
        }
        assert(set.contains(list[list.len() - 1]));
        lemma_left_out_all(front, set);
    }
}

/// Whether what a set holds of the dependencies of `root` brings its own dependencies with it.
spec fn is_closed_below(m: ModuleMap, root: Seq<char>, set: Set<Seq<char>>) -> bool {
    forall|x: Seq<char>, k: int|
        #![trigger crate::resolver::deps_of(m, x)[k]]
        set.contains(x) && depends_on(m, root, x) && 0 <= k < crate::resolver::deps_of(m, x).len()
            ==> set.contains(crate::resolver::deps_of(m, x)[k])
}

proof fn lemma_closed_below(
    m: ModuleMap,
    root: Seq<char>,
    set: Set<Seq<char>>,
    a: Seq<char>,
    b: Seq<char>,
    n: nat,
)
    requires
        is_closed_below(m, root, set),
        depends_on(m, root, a),
        set.contains(a),
        is_within(m, Set::empty(), a, b, n),
    ensures
        set.contains(b),
    decreases n,
{
    if a != b {
        let i = choose|i: int|
            0 <= i < crate::resolver::deps_of(m, a).len() && is_within(
                m,
                Set::empty(),
                #[trigger] crate::resolver::deps_of(m, a)[i],
                b,
                (n - 1) as nat,
            );
        lemma_reaches_step(m, Set::empty(), root, a, i);
        lemma_closed_below(
            m,
            root,
            set,
            crate::resolver::deps_of(m, a)[i],
            b,
            (n - 1) as nat,
        );
    }
}

/// What two visits have in common of which one begins with more visited.
spec fn runs_beside(
    set: Set<Seq<char>>,
    visited: Set<Seq<char>>,
    new: Seq<Seq<char>>,
    fresh: Set<Seq<char>>,
    list: Seq<Seq<char>>,
) -> bool {
    &&& visited == fresh.union(set)
    &&& new == left_out(list, set)
}

/// A visit that begins with more visited appends what the other visit does, without what had been
/// visited.
proof fn lemma_visit_beside(
    m: ModuleMap,
    root: Seq<char>,
    set: Set<Seq<char>>,
    base: int,
    path: Seq<char>,
    visited: Set<Seq<char>>,
    order: Seq<Seq<char>>,
    fresh: Set<Seq<char>>,
    list: Seq<Seq<char>>,
)
    requires
        m.dom().finite(),
        is_closed_below(m, root, set),
        depends_on(m, root, path),
        0 <= base <= order.len(),
        runs_beside(set, visited, order.skip(base), fresh, list),
    ensures
        ({
            let (seen, done) = crate::resolver::visit(m, path, visited, order);
            let (other, all) = crate::resolver::visit(m, path, fresh, list);
            &&& base <= done.len()
            &&& done.take(base) == order.take(base)
            &&& runs_beside(set, seen, done.skip(base), other, all)
        }),
    decreases crate::resolver::unvisited(m, fresh), 0nat,
{
    let (seen, done) = crate::resolver::visit(m, path, visited, order);
    let (other, all) = crate::resolver::visit(m, path, fresh, list);
    if fresh.contains(path) {
    } else if set.contains(path) {
        lemma_visit_grows(m, path, fresh, list);
        lemma_visit_reaches(m, Set::empty(), path, fresh, list);
        let new = all.skip(list.len() as int);
        assert forall|x: Seq<char>| #[trigger] other.contains(x) implies fresh.contains(x)
            || set.contains(x) by {
            if !fresh.contains(x) {
                let n = choose|n: nat| is_within(m, Set::empty(), path, x, n);
                lemma_closed_below(m, root, set, path, x, n);
            }
        }
        assert(seen == other.union(set));
        assert forall|i: int| 0 <= i < new.len() implies set.contains(#[trigger] new[i]) by {
            assert(new.contains(new[i]));
            assert(other.contains(new[i]));
        }
        lemma_left_out_all(new, set);
        assert(all == list + new) by {
            assert(all == all.take(list.len() as int) + new);
        }
        lemma_left_out_adds(list, new, set);
        assert(left_out(list, set) + Seq::<Seq<char>>::empty() == left_out(list, set));
    } else if crate::resolver::is_ready(m, path) {
        assert(m.dom().difference(fresh.insert(path)) == m.dom().difference(fresh).remove(path));
        let deps = crate::resolver::deps_of(m, path);
        assert(visited.insert(path) == fresh.insert(path).union(set));
        assert forall|i: int| 0 <= i < deps.len() implies depends_on(
            m,
            root,
            #[trigger] deps[i],
        ) by {
            lemma_reaches_step(m, Set::empty(), root, path, i);
        }
        lemma_visit_all_beside(
            m,
            root,
            set,
            base,
            deps,
            visited.insert(path),
            order,
            fresh.insert(path),
            list,
        );
        let (_, inner) = crate::resolver::visit_all(m, deps, visited.insert(path), order);
        let (_, rest) = crate::resolver::visit_all(m, deps, fresh.insert(path), list);
        assert(done == inner.push(path));
        assert(done.skip(base) == inner.skip(base).push(path));
        assert(done.take(base) == inner.take(base));
        assert(rest.push(path).drop_last() == rest);
        assert(left_out(all, set) == left_out(rest, set).push(path));
    } else {
        assert(done.skip(base) == order.skip(base).push(path));
        assert(done.take(base) == order.take(base));
        assert(list.push(path).drop_last() == list);
        assert(seen == other.union(set));
    }
}

proof fn lemma_visit_all_beside(
    m: ModuleMap,
    root: Seq<char>,
    set: Set<Seq<char>>,
    base: int,
    paths: Seq<Seq<char>>,
    visited: Set<Seq<char>>,
    order: Seq<Seq<char>>,
    fresh: Set<Seq<char>>,
    list: Seq<Seq<char>>,
)
    requires
        m.dom().finite(),
        is_closed_below(m, root, set),
        forall|i: int| 0 <= i < paths.len() ==> depends_on(m, root, #[trigger] paths[i]),
        0 <= base <= order.len(),
        runs_beside(set, visited, order.skip(base), fresh, list),
    ensures
        ({
            let (seen, done) = crate::resolver::visit_all(m, paths, visited, order);
            let (other, all) = crate::resolver::visit_all(m, paths, fresh, list);
            &&& base <= done.len()
            &&& done.take(base) == order.take(base)
            &&& runs_beside(set, seen, done.skip(base), other, all)
        }),
    decreases crate::resolver::unvisited(m, fresh), paths.len(),
{
    if paths.len() > 0 {
        let first = paths[0];
        let rest = paths.drop_first();
        lemma_visit_beside(m, root, set, base, first, visited, order, fresh, list);
        lemma_visit_grows(m, first, visited, order);
        lemma_visit_grows(m, first, fresh, list);
        let (v, o) = crate::resolver::visit(m, first, visited, order);
        let (f, l) = crate::resolver::visit(m, first, fresh, list);
        vstd::set_lib::lemma_len_subset(m.dom().difference(f), m.dom().difference(fresh));
        assert forall|i: int| 0 <= i < rest.len() implies depends_on(
            m,
            root,
            #[trigger] rest[i],
        ) by {
            assert(rest[i] == paths[i + 1]);
        }
        lemma_visit_all_beside(m, root, set, base, rest, v, o, f, l);
    }
}

proof fn lemma_visit_all_last(
    m: ModuleMap,
    paths: Seq<Seq<char>>,
    last: Seq<char>,
    visited: Set<Seq<char>>,
    order: Seq<Seq<char>>,
)
    requires
        m.dom().finite(),
    ensures
        ({
            let (v, o) = crate::resolver::visit_all(m, paths, visited, order);
            crate::resolver::visit_all(m, paths.push(last), visited, order)
                == crate::resolver::visit(m, last, v, o)
        }),
    decreases paths.len(),
{
    let more = paths.push(last);
    if paths.len() == 0 {
        reveal_with_fuel(crate::resolver::visit_all, 2);
        assert(more.drop_first() == Seq::<Seq<char>>::empty());
        assert(more.first() == last);
        lemma_visit_grows(m, last, visited, order);
    } else {
        assert(more.first() == paths.first());
        assert(more.drop_first() == paths.drop_first().push(last));
        lemma_visit_grows(m, paths.first(), visited, order);
        let (v, o) = crate::resolver::visit(m, paths.first(), visited, order);
        lemma_visit_all_last(m, paths.drop_first(), last, v, o);
    }
}

/// The evaluation orders of modules, one behind the other, each module where it stands first.
pub open spec fn merged_orders(m: ModuleMap, paths: Seq<Seq<char>>) -> Seq<Seq<char>>
    decreases paths.len(),
{
    if paths.len() == 0 {
        Seq::empty()
    } else {
        let before = merged_orders(m, paths.drop_last());
        before + left_out(crate::resolver::evaluation_order(m, paths.last()), before.to_set())
    }
}

proof fn lemma_orders_merge(m: ModuleMap, path: Seq<char>, paths: Seq<Seq<char>>)
    requires
        m.dom().finite(),
        is_acyclic_from(m, path),
        forall|i: int|
            0 <= i < paths.len() ==> crate::resolver::deps_of(m, path).contains(
                #[trigger] paths[i],
            ),
    ensures
        ({
            let (seen, done) = crate::resolver::visit_all(
                m,
                paths,
                set![path],
                Seq::empty(),
            );
            &&& done == merged_orders(m, paths)
            &&& seen == done.to_set().insert(path)
        }),
    decreases paths.len(),
{
    let start = set![path];
    let none = Seq::<Seq<char>>::empty();
    if paths.len() == 0 {
        assert(none.to_set().insert(path) == start);
    } else {
        let front = paths.drop_last();
        let last = paths.last();
        assert(paths == front.push(last));
        assert forall|i: int| 0 <= i < front.len() implies crate::resolver::deps_of(
            m,
            path,
        ).contains(#[trigger] front[i]) by {
            assert(front[i] == paths[i]);
        }
        lemma_orders_merge(m, path, front);
        lemma_visit_all_last(m, front, last, start, none);
        let (v, o) = crate::resolver::visit_all(m, front, start, none);
        lemma_visit_all_closed(m, front, start, none);
        assert(paths[paths.len() - 1] == last);
        let k = choose|k: int|
            0 <= k < crate::resolver::deps_of(m, path).len() && crate::resolver::deps_of(
                m,
                path,
            )[k] == last;
        assert(is_within(m, Set::empty(), path, path, 0));
        assert(depends_on(m, path, path));
        lemma_reaches_step(m, Set::empty(), path, path, k);
        assert(!leads_to(m, path, path));
        assert(!depends_on(m, last, path)) by {
            assert(last == crate::resolver::deps_of(m, path)[k]);
        }
        assert(is_within(m, Set::empty(), last, last, 0));
        assert(is_closed_below(m, last, v));
        let base: int = o.len() as int;
        assert(o.skip(base) == none);
        assert(v == Set::<Seq<char>>::empty().union(v));
        lemma_visit_beside(m, last, v, base, last, v, o, Set::empty(), none);
        let (seen, done) = crate::resolver::visit(m, last, v, o);
        let alone = crate::resolver::evaluation_order(m, last);
        assert(done.take(base) == o);
        assert(done == done.take(base) + done.skip(base));
        assert(done == o + left_out(alone, v));
        lemma_visit_grows(m, last, Set::empty(), none);
        lemma_visit_reaches(m, Set::empty(), last, Set::empty(), none);
        assert(alone.skip(0) == alone);
        assert forall|i: int| 0 <= i < alone.len() implies #[trigger] alone[i] != path by {
            assert(alone.contains(alone[i]));
            assert(crate::resolver::visit(m, last, Set::empty(), none).0.contains(alone[i]));
        }
        lemma_left_out_same(alone, v, o.to_set(), path);
        lemma_visit_grows(m, last, v, o);
        assert(seen == done.to_set().insert(path)) by {
            assert forall|x: Seq<char>| #[trigger] seen.contains(x) <==> done.to_set().insert(
                path,
            ).contains(x) by {
                let new = done.skip(base);
                assert(done.contains(x) <==> o.contains(x) || new.contains(x)) by {
                    if done.contains(x) {
                        let i = choose|i: int| 0 <= i < done.len() && done[i] == x;
                        if i < base {
                            assert(done.take(base)[i] == x);
                            assert(o[i] == x);
                        } else {
                            assert(new[i - base] == x);
                        }
                    }
                    if o.contains(x) {
                        let i = choose|i: int| 0 <= i < o.len() && o[i] == x;
                        assert(done.take(base)[i] == x);
                        assert(done[i] == x);
                    }
                    if new.contains(x) {
                        let i = choose|i: int| 0 <= i < new.len() && new[i] == x;
                        assert(done[base + i] == x);
                    }
                }
            }
        }
    }
}

proof fn lemma_left_out_same(
    list: Seq<Seq<char>>,
    set: Set<Seq<char>>,
    other: Set<Seq<char>>,
    x: Seq<char>,
)
    requires
        set == other.insert(x),
        forall|i: int| 0 <= i < list.len() ==> #[trigger] list[i] != x,
    ensures
        left_out(list, set) == left_out(list, other),
    decreases list.len(),
{
    if list.len() > 0 {
        let front = list.drop_last();
        assert forall|i: int| 0 <= i < front.len() implies #[trigger] front[i] != x by {
            assert(front[i] == list[i]);
        }
        assert(list[list.len() - 1] != x);
        lemma_left_out_same(front, set, other, x);
    }
}

/// A module is evaluated behind what its dependencies need, which come in the order of the
/// imports, as they would for each dependency alone, and each where it is needed first. A module
/// that is not ready stands alone.
pub proof fn law_orders_merge(m: ModuleMap, path: Seq<char>)
    requires
        m.dom().finite(),
        is_acyclic_from(m, path),
    ensures
        crate::resolver::evaluation_order(m, path) == (if m.contains_key(path) && m[path] is Ok {
            merged_orders(m, m[path]->Ok_0.deps).push(path)
        } else {
            seq![path]
        }),
{
    let none = Seq::<Seq<char>>::empty();
    assert(Set::<Seq<char>>::empty().insert(path) == set![path]);
    if m.contains_key(path) && m[path] is Ok {
        let deps = m[path]->Ok_0.deps;
        assert(deps == crate::resolver::deps_of(m, path));
        lemma_orders_merge(m, path, deps);
    } else {
        assert(none.push(path) == seq![path]);
    }
}

} // verus!
