use vstd::prelude::*;
use vstd::string::{StrSliceExecFns, StringSliceAdditionalSpecFns};

use crate::source::bytes_eq_range;

verus! {

/// One captured binding: a metavariable name (without its sigil) and the
/// arena index of the captured node.
pub struct Binding {
    pub name: Vec<u8>,
    pub node: usize,
}

/// The mapping that a binding list denotes; a well-formed environment
/// never repeats a name.
pub open spec fn binds_map(s: Seq<Binding>) -> Map<Seq<u8>, int>
    decreases s.len(),
{
    if s.len() == 0 {
        Map::empty()
    } else {
        binds_map(s.drop_last()).insert(s.last().name@, s.last().node as int)
    }
}

/// No two bindings carry the same name.
pub open spec fn names_distinct(s: Seq<Binding>) -> bool {
    forall|i: int, j: int| 0 <= i < j < s.len() ==> (#[trigger] s[i]).name@ != (#[trigger] s[j]).name@
}

pub proof fn lemma_binds_map_contains(s: Seq<Binding>, k: Seq<u8>)
    ensures
        binds_map(s).contains_key(k) <==> exists|i: int|
            0 <= i < s.len() && (#[trigger] s[i]).name@ == k,
    decreases s.len(),
{
    if s.len() == 0 {
    } else {
        lemma_binds_map_contains(s.drop_last(), k);
        if s.last().name@ == k {
            assert((s[s.len() - 1]).name@ == k);
        } else {
            if exists|i: int| 0 <= i < s.len() && (#[trigger] s[i]).name@ == k {
                let i = choose|i: int| 0 <= i < s.len() && (#[trigger] s[i]).name@ == k;
                assert(i < s.len() - 1);
                assert((s.drop_last()[i]).name@ == k);
            }
            if exists|i: int| 0 <= i < s.drop_last().len() && (#[trigger] s.drop_last()[i]).name@
                == k {
                let i = choose|i: int|
                    0 <= i < s.drop_last().len() && (#[trigger] s.drop_last()[i]).name@ == k;
                assert((s[i]).name@ == k);
            }
        }
    }
}

pub proof fn lemma_binds_map_at(s: Seq<Binding>, i: int)
    requires
        names_distinct(s),
        0 <= i < s.len(),
    ensures
        binds_map(s).contains_key(s[i].name@),
        binds_map(s)[s[i].name@] == s[i].node as int,
    decreases s.len(),
{
    if i == s.len() - 1 {
    } else {
        assert(s.drop_last()[i] == s[i]);
        lemma_binds_map_at(s.drop_last(), i);
        assert(s[i].name@ != s.last().name@);
    }
}

/// The capture environment of one successful match: metavariable names
/// mapped to the nodes they captured, scoped to one candidate tree.
pub struct Environment {
    pub binds: Vec<Binding>,
}

impl Environment {
    /// The mapping from names to captured arena indices.
    pub open spec fn map(&self) -> Map<Seq<u8>, int> {
        binds_map(self.binds@)
    }

    /// Names are unique and every captured index addresses a node of a
    /// tree with `n` nodes.
    pub open spec fn wf_for(&self, n: int) -> bool {
        &&& names_distinct(self.binds@)
        &&& forall|i: int| 0 <= i < self.binds@.len() ==> (#[trigger] self.binds@[i]).node < n
    }

    /// The empty environment.
    pub fn new() -> (r: Environment)
        ensures
            r.binds@.len() == 0,
            r.map() == Map::<Seq<u8>, int>::empty(),
            forall|n: int| r.wf_for(n),
    {
        Environment { binds: Vec::new() }
    }

    /// Looks a name up, given as the byte range `[a, b)` of `v`.
    pub(crate) fn lookup_range(&self, v: &Vec<u8>, a: usize, b: usize) -> (r: Option<usize>)
        requires
            names_distinct(self.binds@),
            a <= b <= v@.len(),
        ensures
            r is Some <==> self.map().contains_key(v@.subrange(a as int, b as int)),
            r is Some ==> self.map()[v@.subrange(a as int, b as int)] == r->Some_0 as int
                && exists|i: int|
                0 <= i < self.binds@.len() && (#[trigger] self.binds@[i]).name@ == v@.subrange(
                    a as int,
                    b as int,
                ) && self.binds@[i].node == r->Some_0,
    {
        proof {
            lemma_binds_map_contains(self.binds@, v@.subrange(a as int, b as int));
        }
        let n = self.binds.len();
        let mut i: usize = 0;
        while i < n
            invariant
                names_distinct(self.binds@),
                a <= b <= v@.len(),
                n == self.binds@.len(),
                i <= n,
                forall|m: int|
                    0 <= m < i ==> (#[trigger] self.binds@[m]).name@ != v@.subrange(
                        a as int,
                        b as int,
                    ),
            decreases n - i,
        {
            let name = &self.binds[i].name;
            if bytes_eq_range(name, 0, name.len(), v, a, b) {
                proof {
                    assert(self.binds@[i as int].name@ =~= self.binds@[i as int].name@.subrange(
                        0,
                        self.binds@[i as int].name@.len() as int,
                    ));
                    lemma_binds_map_at(self.binds@, i as int);
                }
                return Some(self.binds[i].node);
            }
            proof {
                assert(self.binds@[i as int].name@ =~= self.binds@[i as int].name@.subrange(
                    0,
                    self.binds@[i as int].name@.len() as int,
                ));
            }
            i += 1;
        }
        None
    }

    /// Looks a bare metavariable name up (without its `$` sigil).
    pub fn get(&self, name: &str) -> (r: Option<usize>)
        requires
            names_distinct(self.binds@),
        ensures
            r is Some <==> self.map().contains_key(name.spec_bytes()),
            r is Some ==> self.map()[name.spec_bytes()] == r->Some_0 as int,
    {
        let v = name.as_bytes_vec();
        proof {
            assert(v@.subrange(0, v@.len() as int) =~= name.spec_bytes());
        }
        self.lookup_range(&v, 0, v.len())
    }

    /// Adds a binding for a name not yet present.
    pub(crate) fn bind(&mut self, name: Vec<u8>, node: usize)
        requires
            !old(self).map().contains_key(name@),
            names_distinct(old(self).binds@),
        ensures
            final(self).binds@ == old(self).binds@.push(Binding { name, node }),
            final(self).map() == old(self).map().insert(name@, node as int),
            names_distinct(final(self).binds@),
    {
        proof {
            lemma_binds_map_contains(old(self).binds@, name@);
        }
        let ghost old_binds = self.binds@;
        self.binds.push(Binding { name, node });
        proof {
            assert(self.binds@.drop_last() =~= old_binds);
            assert forall|i: int, j: int| 0 <= i < j < self.binds@.len() implies (
            #[trigger] self.binds@[i]).name@ != (#[trigger] self.binds@[j]).name@ by {
                if j < self.binds@.len() - 1 {
                    assert(old_binds[i] == self.binds@[i]);
                    assert(old_binds[j] == self.binds@[j]);
                } else {
                    assert(old_binds[i] == self.binds@[i]);
                }
            }
        }
    }
}

} // verus!
