//! Locating locked decision nodes: each locked line of actions is matched to the tree
//! node that it leads to.
use vstd::prelude::*;
use crate::game::Action;

verus! {

/// Whether two lines of actions are the same.
fn same_line(a: &Vec<Action>, b: &Vec<Action>) -> (r: bool)
    ensures
        r == (a@ == b@),
{
    if a.len() != b.len() {
        return false;
    }
    let mut i: usize = 0;
    while i < a.len()
        invariant
            i <= a.len(),
            a.len() == b.len(),
            forall|k: int| 0 <= k < i ==> a@[k] == b@[k],
        decreases a.len() - i,
    {
        if a[i] != b[i] {
            return false;
        }
        i = i + 1;
    }
    assert(a@ =~= b@);
    true
}

/// The node of `line` in `index`: the id of the first entry whose line it is.
pub open spec fn node_of_line(index: Seq<(Vec<Action>, u32)>, line: Seq<Action>) -> Option<u32>
    decreases index.len(),
{
    if index.len() == 0 {
        None
    } else if index[0].0@ == line {
        Some(index[0].1)
    } else {
        node_of_line(index.drop_first(), line)
    }
}

/// The node of `line` in `index`.
fn find_line(index: &Vec<(Vec<Action>, u32)>, line: &Vec<Action>) -> (r: Option<u32>)
    ensures
        r == node_of_line(index@, line@),
{
    let mut k: usize = 0;
    proof {
        assert(index@.skip(0) =~= index@);
    }
    while k < index.len()
        invariant
            k <= index.len(),
            node_of_line(index@, line@) == node_of_line(index@.skip(k as int), line@),
        decreases index.len() - k,
    {
        proof {
            assert(index@.skip(k as int).drop_first() =~= index@.skip(k + 1));
            assert(index@.skip(k as int)[0] == index@[k as int]);
        }
        if same_line(&index[k].0, line) {
            return Some(index[k].1);
        }
        k = k + 1;
    }
    proof {
        assert(index@.skip(k as int).len() == 0);
    }
    None
}

/// The tree node of each locked line (`None` where the tree has no such line), looked up
/// in `index`, the lines of the tree with their node ids.
pub fn resolve_node_ids(lines: &Vec<Vec<Action>>, index: &Vec<(Vec<Action>, u32)>) -> (r: Vec<Option<u32>>)
    ensures
        r.len() == lines.len(),
        forall|i: int| 0 <= i < lines.len() ==> #[trigger] r@[i] == node_of_line(index@, lines@[i]@),
{
    let mut r: Vec<Option<u32>> = Vec::new();
    let mut i: usize = 0;
    while i < lines.len()
        invariant
            i <= lines.len(),
            r.len() == i,
            forall|k: int| 0 <= k < i ==> #[trigger] r@[k] == node_of_line(index@, lines@[k]@),
        decreases lines.len() - i,
    {
        let found = find_line(index, &lines[i]);
        r.push(found);
        i = i + 1;
    }
    r
}

} // verus!
