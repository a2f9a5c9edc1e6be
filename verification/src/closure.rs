//! Dependency closures: the depth-first walk of an include relation, and the
//! proof that it lists exactly the files that can be reached.
//!
//! The relation is a finite map from a file to the files it includes
//! directly. Files that are no key of the map have no includes and are never
//! listed.
use vstd::prelude::*;

verus! {

/// The text of a project-relative path.
pub type Name = Seq<char>;

/// The direct includes of each file.
pub type Includes = Map<Name, Seq<Name>>;

/// The files of the relation that a walk has not listed yet.
pub open spec fn unvisited(m: Includes, seen: Set<Name>) -> Set<Name> {
    m.dom().difference(seen)
}

/// The depth-first walk from a list of pending files: the first pending file
/// is listed unless it was listed before or is no key, and its direct
/// includes are then walked before the rest of the list.
pub open spec fn walk(m: Includes, pending: Seq<Name>, seen: Set<Name>) -> Seq<Name>
    decreases unvisited(m, seen).len(), pending.len(),
    when m.dom().finite()
    via walk_decreases
{
    if pending.len() == 0 {
        Seq::empty()
    } else {
        let file = pending.first();
        let rest = pending.drop_first();
        if seen.contains(file) || !m.dom().contains(file) {
            walk(m, rest, seen)
        } else {
            seq![file] + walk(m, m[file] + rest, seen.insert(file))
        }
    }
}

#[via_fn]
proof fn walk_decreases(m: Includes, pending: Seq<Name>, seen: Set<Name>) {
    if pending.len() > 0 {
        let file = pending.first();
        if !seen.contains(file) && m.dom().contains(file) {
            lemma_visit_shrinks(m, seen, file);
        }
    }
}

/// Listing a file that was not listed before leaves fewer files to list.
pub proof fn lemma_visit_shrinks(m: Includes, seen: Set<Name>, file: Name)
    requires
        m.dom().finite(),
        m.dom().contains(file),
        !seen.contains(file),
    ensures
        unvisited(m, seen.insert(file)).len() < unvisited(m, seen).len(),
{
    assert(unvisited(m, seen.insert(file)) =~= unvisited(m, seen).remove(file));
    assert(unvisited(m, seen).contains(file));
}

/// The dependency closure of `file`: the file itself, then the files it
/// includes directly or through other files, in depth-first order.
pub open spec fn closure(m: Includes, file: Name) -> Seq<Name> {
    walk(m, seq![file], Set::empty())
}

/// Whether `p` is a chain of includes: every file in it is a key, and each
/// one includes the next directly.
pub open spec fn is_chain(m: Includes, p: Seq<Name>) -> bool {
    &&& p.len() >= 1
    &&& forall|i: int| 0 <= i < p.len() ==> m.dom().contains(#[trigger] p[i])
    &&& forall|i: int| 0 <= i < p.len() - 1 ==> m[#[trigger] p[i]].contains(p[i + 1])
}

/// Whether `to` can be reached from `from` through includes. A file that is
/// a key reaches itself.
pub open spec fn reaches(m: Includes, from: Name, to: Name) -> bool {
    exists|p: Seq<Name>| is_chain(m, p) && p.first() == from && p.last() == to
}

/// Whether every include of a file of `s` that is a key is in `s` too.
pub open spec fn closed(m: Includes, s: Set<Name>) -> bool {
    forall|u: Name, i: int|
        s.contains(u) && m.dom().contains(u) && 0 <= i < m[u].len() && m.dom().contains(
            #[trigger] m[u][i],
        ) ==> s.contains(m[u][i])
}

/// A file that is reached includes only files that are reached.
pub proof fn lemma_reaches_step(m: Includes, from: Name, via_file: Name, to: Name)
    requires
        reaches(m, from, via_file),
        m[via_file].contains(to),
        m.dom().contains(to),
    ensures
        reaches(m, from, to),
{
    let p = choose|p: Seq<Name>| is_chain(m, p) && p.first() == from && p.last() == via_file;
    let q = p.push(to);
    assert forall|i: int| 0 <= i < q.len() implies m.dom().contains(#[trigger] q[i]) by {
        if i < p.len() {
            assert(q[i] == p[i]);
        }
    }
    assert forall|i: int| 0 <= i < q.len() - 1 implies m[#[trigger] q[i]].contains(q[i + 1]) by {
        assert(q[i] == p[i]);
        if i < p.len() - 1 {
            assert(q[i + 1] == p[i + 1]);
        }
    }
    assert(is_chain(m, q) && q.first() == from && q.last() == to);
}

/// Every file of a chain that starts inside a closed set is inside it.
proof fn lemma_chain_inside(m: Includes, s: Set<Name>, p: Seq<Name>, i: int)
    requires
        is_chain(m, p),
        closed(m, s),
        s.contains(p.first()),
        0 <= i < p.len(),
    ensures
        s.contains(p[i]),
    decreases i,
{
    if i > 0 {
        lemma_chain_inside(m, s, p, i - 1);
        let u = p[i - 1];
        assert(m[u].contains(p[i - 1 + 1]));
        let k = choose|k: int| 0 <= k < m[u].len() && m[u][k] == p[i];
        assert(m.dom().contains(m[u][k]));
    }
}

/// What a walk lists: keys only, none that was seen before, none twice.
pub proof fn lemma_walk_distinct(m: Includes, pending: Seq<Name>, seen: Set<Name>)
    requires
        m.dom().finite(),
    ensures
        walk(m, pending, seen).no_duplicates(),
        forall|x: Name| #[trigger]
            walk(m, pending, seen).contains(x) ==> m.dom().contains(x) && !seen.contains(x),
    decreases unvisited(m, seen).len(), pending.len(),
{
    if pending.len() > 0 {
        let file = pending.first();
        let rest = pending.drop_first();
        if seen.contains(file) || !m.dom().contains(file) {
            lemma_walk_distinct(m, rest, seen);
        } else {
            lemma_visit_shrinks(m, seen, file);
            let tail = walk(m, m[file] + rest, seen.insert(file));
            lemma_walk_distinct(m, m[file] + rest, seen.insert(file));
            let out = seq![file] + tail;
            assert(out == walk(m, pending, seen));
            assert forall|x: Name| #[trigger] out.contains(x) implies m.dom().contains(x)
                && !seen.contains(x) by {
                let k = choose|k: int| 0 <= k < out.len() && out[k] == x;
                if k > 0 {
                    assert(tail[k - 1] == x);
                    assert(tail.contains(x));
                }
            }
            assert forall|i: int, j: int| 0 <= i < out.len() && 0 <= j < out.len() && i
                != j implies out[i] != out[j] by {
                if i > 0 {
                    assert(tail[i - 1] == out[i]);
                    assert(tail.contains(out[i]));
                }
                if j > 0 {
                    assert(tail[j - 1] == out[j]);
                    assert(tail.contains(out[j]));
                }
            }
        }
    }
}

/// A walk from files that `root` reaches lists only files that `root`
/// reaches.
pub proof fn lemma_walk_sound(m: Includes, pending: Seq<Name>, seen: Set<Name>, root: Name)
    requires
        m.dom().finite(),
        forall|i: int|
            0 <= i < pending.len() && m.dom().contains(#[trigger] pending[i]) ==> reaches(
                m,
                root,
                pending[i],
            ),
    ensures
        forall|x: Name| #[trigger] walk(m, pending, seen).contains(x) ==> reaches(m, root, x),
    decreases unvisited(m, seen).len(), pending.len(),
{
    if pending.len() > 0 {
        let file = pending.first();
        let rest = pending.drop_first();
        assert forall|i: int| 0 <= i < rest.len() && m.dom().contains(#[trigger] rest[i]) implies reaches(
            m,
            root,
            rest[i],
        ) by {
            assert(rest[i] == pending[i + 1]);
        }
        if seen.contains(file) || !m.dom().contains(file) {
            lemma_walk_sound(m, rest, seen, root);
            assert(walk(m, pending, seen) == walk(m, rest, seen));
        } else {
            lemma_visit_shrinks(m, seen, file);
            let next = m[file] + rest;
            assert(reaches(m, root, pending[0]));
            assert forall|i: int| 0 <= i < next.len() && m.dom().contains(#[trigger] next[i]) implies reaches(
                m,
                root,
                next[i],
            ) by {
                if i < m[file].len() {
                    assert(next[i] == m[file][i]);
                    assert(m[file].contains(next[i]));
                    lemma_reaches_step(m, root, file, next[i]);
                } else {
                    assert(next[i] == rest[i - m[file].len()]);
                }
            }
            lemma_walk_sound(m, next, seen.insert(file), root);
            let tail = walk(m, next, seen.insert(file));
            let out = seq![file] + tail;
            assert(out == walk(m, pending, seen));
            assert forall|x: Name| #[trigger] out.contains(x) implies reaches(m, root, x) by {
                let k = choose|k: int| 0 <= k < out.len() && out[k] == x;
                if k > 0 {
                    assert(tail[k - 1] == x);
                    assert(tail.contains(x));
                }
            }
        }
    } else {
        assert(walk(m, pending, seen) =~= Seq::<Name>::empty());
    }
}

/// Whether every include of a seen file that is a key is seen or pending.
pub open spec fn frontier(m: Includes, pending: Seq<Name>, seen: Set<Name>) -> bool {
    forall|u: Name, i: int|
        seen.contains(u) && m.dom().contains(u) && 0 <= i < m[u].len() && m.dom().contains(
            #[trigger] m[u][i],
        ) ==> seen.contains(m[u][i]) || pending.contains(m[u][i])
}

/// The files seen before a walk together with those it lists.
pub open spec fn covered(m: Includes, pending: Seq<Name>, seen: Set<Name>) -> Set<Name> {
    Set::new(|x: Name| seen.contains(x) || walk(m, pending, seen).contains(x))
}

/// A walk leaves no include behind: the files seen before it together with
/// those it lists are closed, and hold every pending file that is a key.
pub proof fn lemma_walk_complete(m: Includes, pending: Seq<Name>, seen: Set<Name>)
    requires
        m.dom().finite(),
        frontier(m, pending, seen),
    ensures
        closed(m, covered(m, pending, seen)),
        forall|i: int|
            0 <= i < pending.len() && m.dom().contains(#[trigger] pending[i]) ==> covered(
                m,
                pending,
                seen,
            ).contains(pending[i]),
    decreases unvisited(m, seen).len(), pending.len(),
{
    let all = covered(m, pending, seen);
    if pending.len() == 0 {
        assert forall|u: Name, i: int|
            all.contains(u) && m.dom().contains(u) && 0 <= i < m[u].len() && m.dom().contains(
                #[trigger] m[u][i],
            ) implies all.contains(m[u][i]) by {
            assert(seen.contains(u));
            assert(!pending.contains(m[u][i]));
        }
    } else {
        let file = pending.first();
        let rest = pending.drop_first();
        if seen.contains(file) || !m.dom().contains(file) {
            assert forall|u: Name, i: int|
                seen.contains(u) && m.dom().contains(u) && 0 <= i < m[u].len() && m.dom().contains(
                    #[trigger] m[u][i],
                ) implies seen.contains(m[u][i]) || rest.contains(m[u][i]) by {
                let w = m[u][i];
                if !seen.contains(w) {
                    assert(pending.contains(w));
                    let k = choose|k: int| 0 <= k < pending.len() && pending[k] == w;
                    assert(k > 0);
                    assert(rest[k - 1] == w);
                }
            }
            lemma_walk_complete(m, rest, seen);
            assert(covered(m, rest, seen) =~= all);
            assert forall|i: int| 0 <= i < pending.len() && m.dom().contains(#[trigger] pending[i]) implies all.contains(
                pending[i],
            ) by {
                if i > 0 {
                    assert(rest[i - 1] == pending[i]);
                }
            }
        } else {
            lemma_visit_shrinks(m, seen, file);
            let next = m[file] + rest;
            let marked = seen.insert(file);
            assert forall|u: Name, i: int|
                marked.contains(u) && m.dom().contains(u) && 0 <= i < m[u].len()
                    && m.dom().contains(#[trigger] m[u][i]) implies marked.contains(m[u][i])
                || next.contains(m[u][i]) by {
                let w = m[u][i];
                if u == file {
                    assert(next[i] == w);
                } else if !seen.contains(w) {
                    assert(pending.contains(w));
                    let k = choose|k: int| 0 <= k < pending.len() && pending[k] == w;
                    if k > 0 {
                        assert(next[m[file].len() + k - 1] == w);
                    }
                }
            }
            lemma_walk_complete(m, next, marked);
            let tail = walk(m, next, marked);
            let out = seq![file] + tail;
            assert(out == walk(m, pending, seen));
            assert(out[0] == file);
            assert forall|x: Name| covered(m, next, marked).contains(x) <==> all.contains(x) by {
                if tail.contains(x) {
                    let k = choose|k: int| 0 <= k < tail.len() && tail[k] == x;
                    assert(out[k + 1] == x);
                }
                if out.contains(x) {
                    let k = choose|k: int| 0 <= k < out.len() && out[k] == x;
                    if k > 0 {
                        assert(tail[k - 1] == x);
                    }
                }
            }
            assert(covered(m, next, marked) =~= all);
            assert forall|i: int| 0 <= i < pending.len() && m.dom().contains(#[trigger] pending[i]) implies all.contains(
                pending[i],
            ) by {
                if i > 0 {
                    assert(next[m[file].len() + i - 1] == pending[i]);
                }
            }
        }
    }
}

/// The dependency closure of a file lists exactly the files that the file
/// reaches through includes, each of them once, whatever cycles or shared
/// includes the relation holds.
pub proof fn lemma_closure_is_reachable_set(m: Includes, file: Name)
    requires
        m.dom().finite(),
    ensures
        closure(m, file).no_duplicates(),
        forall|x: Name| #[trigger] closure(m, file).contains(x) <==> reaches(m, file, x),
{
    let pending = seq![file];
    let seen = Set::<Name>::empty();
    lemma_walk_distinct(m, pending, seen);
    if m.dom().contains(file) {
        let unit = seq![file];
        assert(is_chain(m, unit) && unit.first() == file && unit.last() == file);
        assert(reaches(m, file, file));
        lemma_walk_sound(m, pending, seen, file);
        lemma_walk_complete(m, pending, seen);
        let all = covered(m, pending, seen);
        assert(all.contains(pending[0]));
        assert forall|x: Name| reaches(m, file, x) implies #[trigger] closure(m, file).contains(
            x,
        ) by {
            let p = choose|p: Seq<Name>| is_chain(m, p) && p.first() == file && p.last() == x;
            lemma_chain_inside(m, all, p, p.len() - 1);
        }
    } else {
        assert(walk(m, pending.drop_first(), seen) =~= Seq::<Name>::empty());
        assert forall|x: Name| reaches(m, file, x) implies #[trigger] closure(m, file).contains(
            x,
        ) by {
            let p = choose|p: Seq<Name>| is_chain(m, p) && p.first() == file && p.last() == x;
            assert(m.dom().contains(p[0]));
        }
    }
}

} // verus!
