use vstd::prelude::*;

use crate::env::Environment;
use crate::pattern::Pattern;
use crate::source::{bytes_eq_range, copy_range};
use crate::tree::{Node, Root};

verus! {

/// Bytes that may follow the sigil in a metavariable name: capital
/// letters and the underscore.
pub open spec fn is_meta_char(b: u8) -> bool {
    (65 <= b <= 90) || b == 95
}

/// A metavariable token: a `$` sigil followed by at least one name byte.
/// The shape is reserved; no grammar token of the target language uses it.
pub open spec fn is_meta_text(s: Seq<u8>) -> bool {
    &&& s.len() >= 2
    &&& s[0] == 36
    &&& forall|k: int| 1 <= k < s.len() ==> is_meta_char(#[trigger] s[k])
}

/// The name under which a metavariable binds: its text without the sigil.
pub open spec fn meta_name_of(s: Seq<u8>) -> Seq<u8> {
    s.subrange(1, s.len() as int)
}

/// A pattern leaf that matches any candidate node and captures it.
pub open spec fn is_meta_node(p: Root, i: int) -> bool {
    &&& p.nodes@[i].children@.len() == 0
    &&& is_meta_text(p.node_bytes(i))
}

/// The variadic placeholder `$$$`: among the children of a pattern node
/// it absorbs any contiguous run of candidate children, without binding.
pub open spec fn is_ellipsis_text(s: Seq<u8>) -> bool {
    s.len() == 3 && s[0] == 36 && s[1] == 36 && s[2] == 36
}

pub open spec fn is_ellipsis_node(p: Root, i: int) -> bool {
    &&& p.nodes@[i].children@.len() == 0
    &&& is_ellipsis_text(p.node_bytes(i))
}

/// The position of the first variadic placeholder among the children of
/// `pi`, from position `j` on, if there is one.
pub open spec fn find_ellipsis(p: Root, pi: int, j: int) -> Option<int>
    decreases p.nodes@[pi].children@.len() - j,
    when 0 <= j
{
    if j >= p.nodes@[pi].children@.len() {
        None
    } else if is_ellipsis_node(p, p.nodes@[pi].children@[j] as int) {
        Some(j)
    } else {
        find_ellipsis(p, pi, j + 1)
    }
}

/// Structural match of pattern node `pi` against candidate node `ci`
/// under the bindings in `env`: a metavariable captures the candidate,
/// subject to agreement in kind and text with any earlier capture of the
/// same name; any other pattern node must agree in kind, leaves must
/// agree in text, and inner nodes must match child by child. The result
/// is the extended environment, or nothing on a mismatch.
pub open spec fn match_at(p: Root, pi: int, c: Root, ci: int, env: Map<Seq<u8>, int>) -> Option<
    Map<Seq<u8>, int>,
>
    decreases p.nodes@.len() - pi, p.nodes@[pi].children@.len() + 1,
    when p.wf() && c.wf() && 0 <= pi < p.nodes@.len() && 0 <= ci < c.nodes@.len()
    via match_at_decreases
{
    if is_meta_node(p, pi) {
        let name = meta_name_of(p.node_bytes(pi));
        if env.contains_key(name) {
            if c.node_bytes(env[name]) == c.node_bytes(ci) && c.nodes@[env[name]].kind_id
                == c.nodes@[ci].kind_id {
                Some(env)
            } else {
                None
            }
        } else {
            Some(env.insert(name, ci))
        }
    } else if p.nodes@[pi].kind_id != c.nodes@[ci].kind_id {
        None
    } else if p.nodes@[pi].children@.len() == 0 {
        if p.node_bytes(pi) == c.node_bytes(ci) {
            Some(env)
        } else {
            None
        }
    } else {
        let pn = p.nodes@[pi].children@.len() as int;
        let cn = c.nodes@[ci].children@.len() as int;
        match find_ellipsis(p, pi, 0) {
            Some(v) => if cn >= pn - 1 {
                match match_kids(p, pi, c, ci, 0, 0, v, env) {
                    Some(env2) => match_kids(p, pi, c, ci, v + 1, cn - (pn - 1 - v), pn - 1 - v, env2),
                    None => None,
                }
            } else {
                None
            },
            None => if pn == cn {
                match_kids(p, pi, c, ci, 0, 0, pn, env)
            } else {
                None
            },
        }
    }
}

/// Pairwise match of `n` children of `pi`, from position `pj` on,
/// against the children of `ci` from position `cj` on, threading the
/// environment left to right.
pub open spec fn match_kids(
    p: Root,
    pi: int,
    c: Root,
    ci: int,
    pj: int,
    cj: int,
    n: int,
    env: Map<Seq<u8>, int>,
) -> Option<Map<Seq<u8>, int>>
    decreases p.nodes@.len() - pi, n,
    when p.wf() && c.wf() && 0 <= pi < p.nodes@.len() && 0 <= ci < c.nodes@.len() && 0 <= pj && 0
        <= cj && 0 <= n && pj + n <= p.nodes@[pi].children@.len() && cj + n
        <= c.nodes@[ci].children@.len()
    via match_kids_decreases
{
    if n <= 0 {
        Some(env)
    } else {
        match match_at(
            p,
            p.nodes@[pi].children@[pj] as int,
            c,
            c.nodes@[ci].children@[cj] as int,
            env,
        ) {
            None => None,
            Some(env2) => match_kids(p, pi, c, ci, pj + 1, cj + 1, n - 1, env2),
        }
    }
}

#[via_fn]
proof fn match_at_decreases(p: Root, pi: int, c: Root, ci: int, env: Map<Seq<u8>, int>) {
    if p.wf() && 0 <= pi < p.nodes@.len() {
        assert(p.nodes@[pi].children@.len() + 1 > p.nodes@[pi].children@.len() as int);
        lemma_find_ellipsis_range(p, pi, 0);
    }
}

/// A found variadic position lies among the children.
proof fn lemma_find_ellipsis_range(p: Root, pi: int, j: int)
    requires
        0 <= j,
    ensures
        find_ellipsis(p, pi, j) is Some ==> j <= find_ellipsis(p, pi, j)->Some_0
            < p.nodes@[pi].children@.len(),
    decreases p.nodes@[pi].children@.len() - j,
{
    if j < p.nodes@[pi].children@.len() && !is_ellipsis_node(
        p,
        p.nodes@[pi].children@[j] as int,
    ) {
        lemma_find_ellipsis_range(p, pi, j + 1);
    }
}

#[via_fn]
proof fn match_kids_decreases(
    p: Root,
    pi: int,
    c: Root,
    ci: int,
    pj: int,
    cj: int,
    n: int,
    env: Map<Seq<u8>, int>,
) {
    if p.wf() && c.wf() && 0 <= pi < p.nodes@.len() && 0 <= ci < c.nodes@.len() && 0 <= pj && 0
        <= cj && 0 <= n && pj + n <= p.nodes@[pi].children@.len() && cj + n
        <= c.nodes@[ci].children@.len() {
        if n > 0 {
            assert(p.node_ok(pi));
            assert(p.child_ok(pi, pj));
            assert(c.node_ok(ci));
            assert(c.child_ok(ci, cj));
        }
    }
}

/// True exactly when node `i` of `t` is a metavariable leaf.
fn is_meta_at(t: &Root, i: usize) -> (r: bool)
    requires
        t.wf(),
        (i as int) < t.nodes@.len(),
    ensures
        r == is_meta_node(*t, i as int),
{
    proof {
        assert(t.node_ok(i as int));
    }
    if t.nodes[i].children.len() != 0 {
        return false;
    }
    let s = t.nodes[i].start;
    let e = t.nodes[i].end;
    if e - s < 2 {
        return false;
    }
    if t.src.bytes[s] != 36 {
        proof {
            assert(t.node_bytes(i as int)[0] == t.src.bytes@[s as int]);
        }
        return false;
    }
    let mut k: usize = s + 1;
    while k < e
        invariant
            t.wf(),
            (i as int) < t.nodes@.len(),
            s == t.nodes@[i as int].start,
            e == t.nodes@[i as int].end,
            s <= e <= t.src.bytes@.len(),
            s + 1 <= k <= e,
            forall|m: int| s + 1 <= m < k ==> is_meta_char(#[trigger] t.src.bytes@[m]),
        decreases e - k,
    {
        let b = t.src.bytes[k];
        if !((65 <= b && b <= 90) || b == 95) {
            proof {
                assert(t.node_bytes(i as int)[k - s] == t.src.bytes@[k as int]);
            }
            return false;
        }
        k += 1;
    }
    proof {
        assert forall|m: int| 1 <= m < t.node_bytes(i as int).len() implies is_meta_char(
            t.node_bytes(i as int)[m],
        ) by {
            assert(t.node_bytes(i as int)[m] == t.src.bytes@[s + m]);
        }
        assert(t.node_bytes(i as int)[0] == t.src.bytes@[s as int]);
    }
    true
}

/// True exactly when node `i` of `t` is a variadic placeholder leaf.
fn is_ellipsis_at(t: &Root, i: usize) -> (r: bool)
    requires
        t.wf(),
        (i as int) < t.nodes@.len(),
    ensures
        r == is_ellipsis_node(*t, i as int),
{
    proof {
        assert(t.node_ok(i as int));
    }
    if t.nodes[i].children.len() != 0 {
        return false;
    }
    let s = t.nodes[i].start;
    let e = t.nodes[i].end;
    if e - s != 3 {
        return false;
    }
    let ok = t.src.bytes[s] == 36 && t.src.bytes[s + 1] == 36 && t.src.bytes[s + 2] == 36;
    proof {
        assert(t.node_bytes(i as int)[0] == t.src.bytes@[s as int]);
        assert(t.node_bytes(i as int)[1] == t.src.bytes@[s + 1]);
        assert(t.node_bytes(i as int)[2] == t.src.bytes@[s + 2]);
    }
    ok
}

/// The position of the first variadic placeholder among the children of
/// `pi`, if there is one.
fn find_ellipsis_exec(p: &Root, pi: usize) -> (r: Option<usize>)
    requires
        p.wf(),
        (pi as int) < p.nodes@.len(),
    ensures
        r is Some <==> find_ellipsis(*p, pi as int, 0) is Some,
        r is Some ==> Some(r->Some_0 as int) == find_ellipsis(*p, pi as int, 0) && (
        r->Some_0 as int) < p.nodes@[pi as int].children@.len(),
{
    proof {
        assert(p.node_ok(pi as int));
    }
    let count = p.nodes[pi].children.len();
    let mut j: usize = 0;
    while j < count
        invariant
            p.wf(),
            (pi as int) < p.nodes@.len(),
            count == p.nodes@[pi as int].children@.len(),
            j <= count,
            find_ellipsis(*p, pi as int, 0) == find_ellipsis(*p, pi as int, j as int),
        decreases count - j,
    {
        proof {
            assert(p.node_ok(pi as int));
            assert(p.child_ok(pi as int, j as int));
        }
        let ch = p.nodes[pi].children[j];
        if is_ellipsis_at(p, ch) {
            return Some(j);
        }
        j += 1;
    }
    None
}

/// Pairwise matching of `n` pattern children from `pj` against `n`
/// candidate children from `cj`. On failure the environment is rolled
/// back to its state at entry.
fn match_range(
    p: &Root,
    pi: usize,
    c: &Root,
    ci: usize,
    pj: usize,
    cj: usize,
    n: usize,
    env: &mut Environment,
) -> (r: bool)
    requires
        p.wf(),
        c.wf(),
        (pi as int) < p.nodes@.len(),
        (ci as int) < c.nodes@.len(),
        pj + n <= p.nodes@[pi as int].children@.len(),
        cj + n <= c.nodes@[ci as int].children@.len(),
        old(env).wf_for(c.nodes@.len() as int),
    ensures
        final(env).wf_for(c.nodes@.len() as int),
        old(env).binds@.is_prefix_of(final(env).binds@),
        r ==> match_kids(*p, pi as int, *c, ci as int, pj as int, cj as int, n as int, old(env).map())
            == Some(final(env).map()),
        !r ==> match_kids(*p, pi as int, *c, ci as int, pj as int, cj as int, n as int, old(env).map())
            is None && final(env).binds@ == old(env).binds@,
    decreases p.nodes@.len() - pi, 0int,
{
    let len0 = env.binds.len();
    let ghost env0 = *env;
    let pcl = p.nodes[pi].children.len();
    let ccl = c.nodes[ci].children.len();
    proof {
        assert(env0.binds@.is_prefix_of(env0.binds@)) by {
            assert(env0.binds@.subrange(0, env0.binds@.len() as int) =~= env0.binds@);
        }
    }
    let mut j: usize = 0;
    while j < n
        invariant
            p.wf(),
            c.wf(),
            (pi as int) < p.nodes@.len(),
            (ci as int) < c.nodes@.len(),
            pcl == p.nodes@[pi as int].children@.len(),
            ccl == c.nodes@[ci as int].children@.len(),
            pj + n <= pcl,
            cj + n <= ccl,
            j <= n,
            env0 == *old(env),
            len0 == env0.binds@.len(),
            env.wf_for(c.nodes@.len() as int),
            env0.binds@.is_prefix_of(env.binds@),
            match_kids(
                *p,
                pi as int,
                *c,
                ci as int,
                pj as int,
                cj as int,
                n as int,
                env0.map(),
            ) == match_kids(
                *p,
                pi as int,
                *c,
                ci as int,
                pj + j,
                cj + j,
                n - j,
                env.map(),
            ),
        decreases n - j,
    {
        proof {
            assert(p.node_ok(pi as int));
            assert(p.child_ok(pi as int, pj + j));
            assert(c.node_ok(ci as int));
            assert(c.child_ok(ci as int, cj + j));
        }
        let pc = p.nodes[pi].children[pj + j];
        let cc = c.nodes[ci].children[cj + j];
        let ghost env_pre = *env;
        let ok = do_match(p, pc, c, cc, env);
        if !ok {
            proof {
                assert(match_kids(
                    *p,
                    pi as int,
                    *c,
                    ci as int,
                    pj + j,
                    cj + j,
                    n - j,
                    env_pre.map(),
                ) is None);
            }
            env.binds.truncate(len0);
            proof {
                assert(env.binds@ =~= env0.binds@);
                assert(env.map() == env0.map());
            }
            return false;
        }
        proof {
            assert(env0.binds@.is_prefix_of(env.binds@)) by {
                assert(env0.binds@.len() <= env_pre.binds@.len() <= env.binds@.len());
                assert(env.binds@.subrange(0, env0.binds@.len() as int) =~= env0.binds@);
            }
        }
        j += 1;
    }
    proof {
        assert(match_kids(
            *p,
            pi as int,
            *c,
            ci as int,
            pj + n,
            cj + n,
            0,
            env.map(),
        ) == Some(env.map()));
    }
    true
}

/// The recursive matcher. On success the environment carries the new
/// bindings; on failure it is rolled back to its state at entry.
fn do_match(p: &Root, pi: usize, c: &Root, ci: usize, env: &mut Environment) -> (r: bool)
    requires
        p.wf(),
        c.wf(),
        (pi as int) < p.nodes@.len(),
        (ci as int) < c.nodes@.len(),
        old(env).wf_for(c.nodes@.len() as int),
    ensures
        final(env).wf_for(c.nodes@.len() as int),
        old(env).binds@.is_prefix_of(final(env).binds@),
        r ==> match_at(*p, pi as int, *c, ci as int, old(env).map()) == Some(final(env).map()),
        !r ==> match_at(*p, pi as int, *c, ci as int, old(env).map()) is None && final(env).binds@
            == old(env).binds@,
    decreases p.nodes@.len() - pi, 1int,
{
    proof {
        assert(p.node_ok(pi as int));
        assert(c.node_ok(ci as int));
        assert(old(env).binds@.is_prefix_of(old(env).binds@)) by {
            assert(old(env).binds@.subrange(0, old(env).binds@.len() as int) =~= old(
                env,
            ).binds@);
        }
    }
    if is_meta_at(p, pi) {
        let s = p.nodes[pi].start;
        let e = p.nodes[pi].end;
        proof {
            assert(p.node_bytes(pi as int).len() >= 2);
            assert(meta_name_of(p.node_bytes(pi as int)) =~= p.src.bytes@.subrange(
                s + 1,
                e as int,
            ));
        }
        match env.lookup_range(&p.src.bytes, s + 1, e) {
            Some(prev) => {
                proof {
                    assert((prev as int) < c.nodes@.len());
                    assert(c.node_ok(prev as int));
                }
                let same_kind = c.nodes[prev].kind_id == c.nodes[ci].kind_id;
                let same_text = bytes_eq_range(
                    &c.src.bytes,
                    c.nodes[prev].start,
                    c.nodes[prev].end,
                    &c.src.bytes,
                    c.nodes[ci].start,
                    c.nodes[ci].end,
                );
                same_kind && same_text
            },
            None => {
                let name = copy_range(&p.src.bytes, s + 1, e);
                env.bind(name, ci);
                proof {
                    assert(old(env).binds@.is_prefix_of(final(env).binds@)) by {
                        assert(final(env).binds@.subrange(0, old(env).binds@.len() as int)
                            =~= old(env).binds@);
                    }
                    assert forall|m: int| 0 <= m < final(env).binds@.len() implies (
                    #[trigger] final(env).binds@[m]).node < c.nodes@.len() by {
                        if m < old(env).binds@.len() {
                            assert(old(env).binds@[m] == final(env).binds@[m]);
                        }
                    }
                }
                true
            },
        }
    } else if p.nodes[pi].kind_id != c.nodes[ci].kind_id {
        false
    } else if p.nodes[pi].children.len() == 0 {
        bytes_eq_range(
            &p.src.bytes,
            p.nodes[pi].start,
            p.nodes[pi].end,
            &c.src.bytes,
            c.nodes[ci].start,
            c.nodes[ci].end,
        )
    } else {
        let pcount = p.nodes[pi].children.len();
        let ccount = c.nodes[ci].children.len();
        let len0 = env.binds.len();
        let ghost env0 = *env;
        match find_ellipsis_exec(p, pi) {
            Some(v) => {
                proof {
                    lemma_find_ellipsis_range(*p, pi as int, 0);
                }
                if ccount < pcount - 1 {
                    return false;
                }
                let front = match_range(p, pi, c, ci, 0, 0, v, env);
                if !front {
                    return false;
                }
                let back = match_range(p, pi, c, ci, v + 1, ccount - (pcount - 1 - v), pcount - 1
                    - v, env);
                if !back {
                    env.binds.truncate(len0);
                    proof {
                        assert(env.binds@ =~= env0.binds@);
                        assert(env.map() == env0.map());
                    }
                    return false;
                }
                proof {
                    assert(old(env).binds@.is_prefix_of(env.binds@)) by {
                        assert(env.binds@.subrange(0, old(env).binds@.len() as int) =~= old(
                            env,
                        ).binds@);
                    }
                }
                true
            },
            None => {
                if pcount != ccount {
                    return false;
                }
                match_range(p, pi, c, ci, 0, 0, pcount, env)
            },
        }
    }
}

/// The nodes of the subtree under `i`, in depth-first preorder: a node
/// comes before all of its descendants, and siblings in source order.
pub open spec fn preorder(t: Root, i: int) -> Seq<int>
    decreases t.nodes@.len() - i, t.nodes@[i].children@.len() + 1,
    when t.wf() && 0 <= i < t.nodes@.len()
    via preorder_decreases
{
    seq![i] + preorder_kids(t, i, 0)
}

/// The preorder listing of the subtrees of the children of `i`, from
/// child position `j` on.
pub open spec fn preorder_kids(t: Root, i: int, j: int) -> Seq<int>
    decreases t.nodes@.len() - i, t.nodes@[i].children@.len() - j,
    when t.wf() && 0 <= i < t.nodes@.len() && 0 <= j
    via preorder_kids_decreases
{
    if j >= t.nodes@[i].children@.len() {
        Seq::empty()
    } else {
        preorder(t, t.nodes@[i].children@[j] as int) + preorder_kids(t, i, j + 1)
    }
}

#[via_fn]
proof fn preorder_decreases(t: Root, i: int) {
}

#[via_fn]
proof fn preorder_kids_decreases(t: Root, i: int, j: int) {
    if t.wf() && 0 <= i < t.nodes@.len() && 0 <= j < t.nodes@[i].children@.len() {
        assert(t.node_ok(i));
        assert(t.child_ok(i, j));
    }
}

/// True when the pattern matches the candidate node, from a fresh
/// environment.
pub open spec fn pattern_matches(pat: Pattern, c: Root, i: int) -> bool {
    match_at(pat.root, pat.start as int, c, i, Map::empty()) is Some
}

/// The matching nodes of the subtree under `i`, in preorder.
pub open spec fn found_in(pat: Pattern, c: Root, i: int) -> Seq<int> {
    preorder(c, i).filter(|j: int| pattern_matches(pat, c, j))
}

proof fn lemma_filter_one<A>(s: Seq<A>, pred: spec_fn(A) -> bool)
    requires
        s.len() == 1,
    ensures
        pred(s[0]) ==> s.filter(pred) == s,
        !pred(s[0]) ==> s.filter(pred) == Seq::<A>::empty(),
{
    reveal_with_fuel(Seq::filter, 2);
    assert(s.drop_last() =~= Seq::<A>::empty());
    if pred(s[0]) {
        assert(s.filter(pred) =~= s);
    } else {
        assert(s.filter(pred) =~= Seq::<A>::empty());
    }
}

/// Depth-first search for the first match in preorder under node `i`.
pub(crate) fn find_from<'r>(pat: &Pattern, root: &'r Root, i: usize) -> (r: Option<
    (usize, Environment),
>)
    requires
        pat.wf(),
        root.wf(),
        (i as int) < root.nodes@.len(),
    ensures
        ({
            match r {
                None => found_in(*pat, *root, i as int).len() == 0,
                Some((id, env)) => found_in(*pat, *root, i as int).len() > 0 && found_in(
                    *pat,
                    *root,
                    i as int,
                )[0] == id as int && (id as int) < root.nodes@.len() && env.wf_for(
                    root.nodes@.len() as int,
                ) && match_at(
                    pat.root,
                    pat.start as int,
                    *root,
                    id as int,
                    Map::empty(),
                ) == Some(env.map()),
            }
        }),
    decreases root.nodes@.len() - i,
{
    let ghost pred = |j: int| pattern_matches(*pat, *root, j);
    let node = Node { root, id: i };
    proof {
        broadcast use vstd::seq_lib::group_seq_lib_default;

        lemma_filter_one(seq![i as int], pred);
    }
    match pat.match_one(&node) {
        Some(env) => {
            proof {
                Seq::filter_distributes_over_add(
                    seq![i as int],
                    preorder_kids(*root, i as int, 0),
                    pred,
                );
                assert(found_in(*pat, *root, i as int)[0] == i as int);
            }
            Some((i, env))
        },
        None => {
            proof {
                Seq::filter_distributes_over_add(
                    seq![i as int],
                    preorder_kids(*root, i as int, 0),
                    pred,
                );
                assert(root.node_ok(i as int));
            }
            let count = root.nodes[i].children.len();
            let mut k: usize = 0;
            while k < count
                invariant
                    pat.wf(),
                    root.wf(),
                    (i as int) < root.nodes@.len(),
                    count == root.nodes@[i as int].children@.len(),
                    k <= count,
                    pred == (|j: int| pattern_matches(*pat, *root, j)),
                    preorder_kids(*root, i as int, 0).filter(pred) == preorder_kids(
                        *root,
                        i as int,
                        k as int,
                    ).filter(pred),
                    found_in(*pat, *root, i as int) == preorder_kids(*root, i as int, 0).filter(
                        pred,
                    ),
                decreases count - k,
            {
                proof {
                    assert(root.node_ok(i as int));
                    assert(root.child_ok(i as int, k as int));
                }
                let c = root.nodes[i].children[k];
                let sub = find_from(pat, root, c);
                proof {
                    Seq::filter_distributes_over_add(
                        preorder(*root, c as int),
                        preorder_kids(*root, i as int, k as int + 1),
                        pred,
                    );
                }
                match sub {
                    Some(pair) => {
                        return Some(pair);
                    },
                    None => {
                    },
                }
                k += 1;
            }
            None
        },
    }
}

/// Depth-first collection of every match in preorder under node `i`,
/// appended to `out`.
fn find_all_from(pat: &Pattern, root: &Root, i: usize, out: &mut Vec<usize>)
    requires
        pat.wf(),
        root.wf(),
        (i as int) < root.nodes@.len(),
    ensures
        final(out)@.len() == old(out)@.len() + found_in(*pat, *root, i as int).len(),
        forall|m: int| 0 <= m < old(out)@.len() ==> final(out)@[m] == old(out)@[m],
        forall|m: int|
            0 <= m < found_in(*pat, *root, i as int).len() ==> (#[trigger] final(out)@[old(
                out,
            )@.len() + m]) as int == found_in(*pat, *root, i as int)[m] && (final(out)@[old(
                out,
            )@.len() + m] as int) < root.nodes@.len(),
    decreases root.nodes@.len() - i,
{
    let ghost pred = |j: int| pattern_matches(*pat, *root, j);
    let ghost total = seq![i as int].filter(pred) + preorder_kids(*root, i as int, 0).filter(pred);
    let ghost base = out@;
    let node = Node { root, id: i };
    proof {
        lemma_filter_one(seq![i as int], pred);
        Seq::filter_distributes_over_add(seq![i as int], preorder_kids(*root, i as int, 0), pred);
        assert(found_in(*pat, *root, i as int) == total);
        assert(root.node_ok(i as int));
    }
    let ghost mut done: Seq<int> = Seq::empty();
    match pat.match_one(&node) {
        Some(_) => {
            out.push(i);
            proof {
                done = seq![i as int];
                assert(done =~= seq![i as int].filter(pred));
            }
        },
        None => {
            proof {
                assert(done =~= seq![i as int].filter(pred));
            }
        },
    }
    let count = root.nodes[i].children.len();
    let mut k: usize = 0;
    while k < count
        invariant
            pat.wf(),
            root.wf(),
            (i as int) < root.nodes@.len(),
            count == root.nodes@[i as int].children@.len(),
            k <= count,
            pred == (|j: int| pattern_matches(*pat, *root, j)),
            total == seq![i as int].filter(pred) + preorder_kids(*root, i as int, 0).filter(pred),
            done + preorder_kids(*root, i as int, k as int).filter(pred) == total,
            out@.len() == base.len() + done.len(),
            forall|m: int| 0 <= m < base.len() ==> out@[m] == base[m],
            forall|m: int|
                0 <= m < done.len() ==> (#[trigger] out@[base.len() + m]) as int == done[m] && (
                out@[base.len() + m] as int) < root.nodes@.len(),
        decreases count - k,
    {
        proof {
            assert(root.node_ok(i as int));
            assert(root.child_ok(i as int, k as int));
        }
        let c = root.nodes[i].children[k];
        proof {
            Seq::filter_distributes_over_add(
                preorder(*root, c as int),
                preorder_kids(*root, i as int, k as int + 1),
                pred,
            );
        }
        let ghost out_pre = out@;
        find_all_from(pat, root, c, out);
        proof {
            let sub = found_in(*pat, *root, c as int);
            assert(sub == preorder(*root, c as int).filter(pred));
            let done2 = done + sub;
            assert(done2 + preorder_kids(*root, i as int, k as int + 1).filter(pred) =~= total);
            assert forall|m: int| 0 <= m < done2.len() implies (#[trigger] out@[base.len()
                + m]) as int == done2[m] && (out@[base.len() + m] as int) < root.nodes@.len() by {
                if m < done.len() {
                    assert(out@[base.len() + m] == out_pre[base.len() + m]);
                } else {
                    assert(out@[out_pre.len() + (m - done.len())] as int == sub[m - done.len()]);
                    assert(out@[base.len() + m] == out@[out_pre.len() + (m - done.len())]);
                }
            }
            done = done2;
        }
        k += 1;
    }
    proof {
        assert(preorder_kids(*root, i as int, count as int).filter(pred) =~= Seq::<int>::empty());
        assert(done =~= total);
    }
}

impl<'r> Node<'r> {
    /// The first node of this subtree, in preorder, that the pattern
    /// matches; nothing when no node matches. Preorder prefers the
    /// earliest node in document order, and a node over its descendants.
    pub fn find(&self, pat: &Pattern) -> (r: Option<Node<'r>>)
        requires
            self.wf(),
            pat.wf(),
        ensures
            r is None ==> found_in(*pat, *self.root, self.id as int).len() == 0,
            r is Some ==> found_in(*pat, *self.root, self.id as int).len() > 0
                && r->Some_0.wf() && r->Some_0.root == self.root && r->Some_0.id as int
                == found_in(*pat, *self.root, self.id as int)[0] && pattern_matches(
                *pat,
                *self.root,
                r->Some_0.id as int,
            ),
    {
        match find_from(pat, self.root, self.id) {
            Some((id, _)) => Some(Node { root: self.root, id }),
            None => None,
        }
    }

    /// Every node of this subtree that the pattern matches, in preorder.
    /// Matches are tried independently, so a match's descendants are
    /// candidates as well.
    pub fn find_all(&self, pat: &Pattern) -> (r: Vec<Node<'r>>)
        requires
            self.wf(),
            pat.wf(),
        ensures
            r@.len() == found_in(*pat, *self.root, self.id as int).len(),
            forall|m: int|
                0 <= m < r@.len() ==> (#[trigger] r@[m]).wf() && r@[m].root == self.root
                    && r@[m].id as int == found_in(*pat, *self.root, self.id as int)[m],
    {
        let mut ids: Vec<usize> = Vec::new();
        find_all_from(pat, self.root, self.id, &mut ids);
        proof {
            assert forall|q: int|
                0 <= q < ids@.len() implies (#[trigger] ids@[q]) as int == found_in(
                *pat,
                *self.root,
                self.id as int,
            )[q] && (ids@[q] as int) < self.root.nodes@.len() by {
                assert(ids@[0 + q] as int == found_in(*pat, *self.root, self.id as int)[q] && (
                ids@[0 + q] as int) < self.root.nodes@.len());
            }
        }
        let mut out: Vec<Node<'r>> = Vec::new();
        let mut m: usize = 0;
        let n = ids.len();
        while m < n
            invariant
                self.wf(),
                n == ids@.len(),
                n == found_in(*pat, *self.root, self.id as int).len(),
                forall|q: int|
                    0 <= q < n ==> (#[trigger] ids@[q]) as int == found_in(
                        *pat,
                        *self.root,
                        self.id as int,
                    )[q] && (ids@[q] as int) < self.root.nodes@.len(),
                m <= n,
                out@.len() == m,
                forall|q: int|
                    0 <= q < m ==> (#[trigger] out@[q]).wf() && out@[q].root == self.root
                        && out@[q].id == ids@[q],
            decreases n - m,
        {
            out.push(Node { root: self.root, id: ids[m] });
            m += 1;
        }
        out
    }
}

/// Matching is reflexive on literal trees: a pattern tree without
/// metavariables matches itself at any node, leaving any environment
/// untouched.
pub proof fn lemma_match_reflexive(t: Root, i: int, env: Map<Seq<u8>, int>)
    requires
        t.wf(),
        0 <= i < t.nodes@.len(),
        forall|d: int| 0 <= d < t.nodes@.len() ==> !is_meta_node(t, d),
    ensures
        match_at(t, i, t, i, env) == Some(env),
    decreases t.nodes@.len() - i, t.nodes@[i].children@.len() + 1,
{
    let n = t.nodes@[i].children@.len() as int;
    if n == 0 {
    } else {
        lemma_find_ellipsis_range(t, i, 0);
        match find_ellipsis(t, i, 0) {
            Some(v) => {
                lemma_match_kids_reflexive(t, i, 0, v, env);
                assert(match_kids(t, i, t, i, 0, 0, v, env) == Some(env));
                lemma_match_kids_reflexive(t, i, v + 1, n - 1 - v, env);
                assert(n - (n - 1 - v) == v + 1);
            },
            None => {
                lemma_match_kids_reflexive(t, i, 0, n, env);
            },
        }
    }
}

proof fn lemma_match_kids_reflexive(t: Root, i: int, j: int, n: int, env: Map<Seq<u8>, int>)
    requires
        t.wf(),
        0 <= i < t.nodes@.len(),
        0 <= j,
        0 <= n,
        j + n <= t.nodes@[i].children@.len(),
        forall|d: int| 0 <= d < t.nodes@.len() ==> !is_meta_node(t, d),
    ensures
        match_kids(t, i, t, i, j, j, n, env) == Some(env),
    decreases t.nodes@.len() - i, n,
{
    if n <= 0 {
    } else {
        assert(t.node_ok(i));
        assert(t.child_ok(i, j));
        lemma_match_reflexive(t, t.nodes@[i].children@[j] as int, env);
        lemma_match_kids_reflexive(t, i, j + 1, n - 1, env);
    }
}

/// The non-linear capture law, first half: a later occurrence of an
/// already-bound metavariable succeeds only when the new capture agrees
/// with the earlier one in kind and in exact text, and then adds nothing.
pub proof fn lemma_nonlinear_consistent(p: Root, pi: int, c: Root, ci: int, env: Map<Seq<u8>, int>)
    requires
        p.wf(),
        c.wf(),
        0 <= pi < p.nodes@.len(),
        0 <= ci < c.nodes@.len(),
        is_meta_node(p, pi),
        env.contains_key(meta_name_of(p.node_bytes(pi))),
        match_at(p, pi, c, ci, env) is Some,
    ensures
        c.node_bytes(env[meta_name_of(p.node_bytes(pi))]) == c.node_bytes(ci),
        c.nodes@[env[meta_name_of(p.node_bytes(pi))]].kind_id == c.nodes@[ci].kind_id,
        match_at(p, pi, c, ci, env) == Some(env),
{
}

/// The non-linear capture law, second half: when the candidate disagrees
/// with the earlier capture of the same name in text or in kind, the
/// match fails.
pub proof fn lemma_nonlinear_conflict(p: Root, pi: int, c: Root, ci: int, env: Map<Seq<u8>, int>)
    requires
        p.wf(),
        c.wf(),
        0 <= pi < p.nodes@.len(),
        0 <= ci < c.nodes@.len(),
        is_meta_node(p, pi),
        env.contains_key(meta_name_of(p.node_bytes(pi))),
        c.node_bytes(env[meta_name_of(p.node_bytes(pi))]) != c.node_bytes(ci)
            || c.nodes@[env[meta_name_of(p.node_bytes(pi))]].kind_id != c.nodes@[ci].kind_id,
    ensures
        match_at(p, pi, c, ci, env) is None,
{
}

impl Pattern {
    /// Matches this pattern against one candidate node. On success the
    /// returned environment holds exactly the captures of the match; on
    /// failure no partial bindings are exposed.
    pub fn match_one(&self, node: &Node<'_>) -> (r: Option<Environment>)
        requires
            self.wf(),
            node.wf(),
        ensures
            ({
                match r {
                    Some(env) => env.wf_for(node.root.nodes@.len() as int) && match_at(
                        self.root,
                        self.start as int,
                        *node.root,
                        node.id as int,
                        Map::empty(),
                    ) == Some(env.map()),
                    None => match_at(
                        self.root,
                        self.start as int,
                        *node.root,
                        node.id as int,
                        Map::empty(),
                    ) is None,
                }
            }),
    {
        let mut env = Environment::new();
        if do_match(&self.root, self.start, node.root, node.id, &mut env) {
            Some(env)
        } else {
            None
        }
    }
}

} // verus!
