use vstd::prelude::*;

use crate::error::Error;
use crate::tree::Root;

verus! {

/// The entry node of a query tree: wrapper nodes with a single child are
/// descended, since they stand for the query as a whole, not for
/// structure the caller asked to match.
pub open spec fn strip_start(t: Root, i: int) -> int
    decreases t.nodes@.len() - i,
    when t.wf() && 0 <= i < t.nodes@.len()
    via strip_start_decreases
{
    if t.nodes@[i].children@.len() == 1 {
        strip_start(t, t.nodes@[i].children@[0] as int)
    } else {
        i
    }
}

#[via_fn]
proof fn strip_start_decreases(t: Root, i: int) {
    if t.wf() && 0 <= i < t.nodes@.len() && t.nodes@[i].children@.len() == 1 {
        assert(t.node_ok(i));
        assert(t.child_ok(i, 0));
    }
}

/// An immutable compiled query: its own parsed tree plus the entry node
/// the matcher starts from. Reusable across many match attempts.
pub struct Pattern {
    pub root: Root,
    pub start: usize,
}

impl Pattern {
    pub open spec fn wf(&self) -> bool {
        &&& self.root.wf()
        &&& (self.start as int) < self.root.nodes@.len()
        &&& self.start as int == strip_start(self.root, 0)
    }

    /// Compiles a query string by parsing it under the grammar and
    /// descending to the entry node. A query that does not parse cleanly
    /// is refused with a syntax failure.
    pub fn new(query: &str) -> (r: Result<Pattern, Error>)
        ensures
            r is Ok ==> r->Ok_0.wf() && r->Ok_0.root.src.text@ == query@,
            r is Err ==> r->Err_0 == Error::PatternSyntax,
    {
        let root = match crate::parse::parse_root(query, true) {
            Some(t) => t,
            None => {
                return Err(Error::PatternSyntax);
            },
        };
        let mut cur: usize = 0;
        while root.nodes[cur].children.len() == 1
            invariant
                root.wf(),
                (cur as int) < root.nodes@.len(),
                strip_start(root, 0) == strip_start(root, cur as int),
            decreases root.nodes@.len() - cur,
        {
            proof {
                assert(root.node_ok(cur as int));
                assert(root.child_ok(cur as int, 0));
            }
            cur = root.nodes[cur].children[0];
        }
        Ok(Pattern { root, start: cur })
    }
}

} // verus!
