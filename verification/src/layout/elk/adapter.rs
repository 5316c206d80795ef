//! The measured diagram model handed to the layered layout, and where
//! its edges are placed in the nesting of containers.

use vstd::prelude::*;

verus! {

/// Where a measured edge label sits along its edge.
#[derive(Debug, Clone, Copy, PartialEq, Eq, Structural)]
pub enum EdgeLabelPlacement {
    Center,
    Tail,
    Head,
}

/// The container of the edge between two nodes with ancestor paths `a`
/// and `b` (outermost first), scanning the paths from position `i` with
/// `cur` the last shared entry so far: the last entry of their common
/// prefix.
pub open spec fn shared_container(a: Seq<Seq<char>>, b: Seq<Seq<char>>, i: nat, cur: Seq<char>) -> Seq<char>
    decreases a.len() - i,
{
    if i < a.len() && i < b.len() && a[i as int] == b[i as int] {
        shared_container(a, b, i + 1, a[i as int])
    } else {
        cur
    }
}

/// The ids along an ancestor path.
pub open spec fn path_view(p: &Vec<String>) -> Seq<Seq<char>> {
    p@.map_values(|s: String| s@)
}

/// The container an edge is placed in, its lowest common ancestor: the
/// last entry of the common prefix of its ends' ancestor paths, or
/// `"root"` when a path is unknown or the paths share nothing.
pub fn lowest_common_container(source_path: Option<&Vec<String>>, target_path: Option<&Vec<String>>) -> (r: String)
    ensures
        r@ == match (source_path, target_path) {
            (Some(a), Some(b)) => shared_container(path_view(a), path_view(b), 0, "root"@),
            _ => "root"@,
        },
{
    let mut lca = String::from_str("root");
    match (source_path, target_path) {
        (Some(a), Some(b)) => {
            let ghost pa = path_view(a);
            let ghost pb = path_view(b);
            let mut i: usize = 0;
            while i < a.len() && i < b.len()
                invariant
                    pa == path_view(a),
                    pb == path_view(b),
                    i <= a@.len(),
                    shared_container(pa, pb, i as nat, lca@) == shared_container(pa, pb, 0, "root"@),
                ensures
                    lca@ == shared_container(pa, pb, 0, "root"@),
                decreases a@.len() - i,
            {
                let same = a[i] == b[i];
                proof {
                    assert(pa[i as int] == a@[i as int]@);
                    assert(pb[i as int] == b@[i as int]@);
                }
                if same {
                    lca = a[i].clone();
                } else {
                    break;
                }
                i += 1;
            }
            lca
        },
        _ => lca,
    }
}

} // verus!
