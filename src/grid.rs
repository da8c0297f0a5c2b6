use vstd::prelude::*;

verus! {

/// A side of the computational domain of a `width × rows` grid of nodes
/// `(i, j)`, `i < width`, `j < rows`: bottom is `j = 0`, top is
/// `j = rows - 1`, left is `i = 0` and right is `i = width - 1`.
#[derive(Clone, Copy, Debug, PartialEq, Eq, Structural)]
pub enum Boundary {
    Top,
    Bottom,
    Left,
    Right,
}

/// A marker for a boundary condition that fixes the value on the boundary.
pub struct Dirichlet;

/// A marker for a boundary condition that fixes the normal derivative on the
/// boundary.
pub struct Neumann;

/// The nodes on `boundary`, in increasing order of the coordinate along it.
pub open spec fn boundary_node_seq(boundary: Boundary, width: nat, rows: nat) -> Seq<(usize, usize)> {
    match boundary {
        Boundary::Bottom => Seq::new(width, |i: int| (i as usize, 0usize)),
        Boundary::Top => Seq::new(width, |i: int| (i as usize, (rows - 1) as usize)),
        Boundary::Left => Seq::new(rows, |j: int| (0usize, j as usize)),
        Boundary::Right => Seq::new(rows, |j: int| ((width - 1) as usize, j as usize)),
    }
}

/// The nodes `(i, j)` on `boundary` of a grid `width` nodes wide and `rows`
/// nodes high.
pub fn boundary_nodes(boundary: Boundary, width: usize, rows: usize) -> (r: Vec<(usize, usize)>)
    requires
        width >= 1,
        rows >= 1,
    ensures
        r@ == boundary_node_seq(boundary, width as nat, rows as nat),
{
    let (count, along_i) = match boundary {
        Boundary::Bottom | Boundary::Top => (width, true),
        Boundary::Left | Boundary::Right => (rows, false),
    };
    let mut nodes: Vec<(usize, usize)> = Vec::new();
    let mut k: usize = 0;
    while k < count
        invariant
            k <= count,
            width >= 1,
            rows >= 1,
            count == if along_i { width } else { rows },
            along_i <==> (boundary == Boundary::Bottom || boundary == Boundary::Top),
            nodes@ == boundary_node_seq(boundary, width as nat, rows as nat).subrange(0, k as int),
        decreases count - k,
    {
        let node = match boundary {
            Boundary::Bottom => (k, 0),
            Boundary::Top => (k, rows - 1),
            Boundary::Left => (0, k),
            Boundary::Right => (width - 1, k),
        };
        nodes.push(node);
        proof {
            assert(nodes@ =~= boundary_node_seq(boundary, width as nat, rows as nat).subrange(
                0,
                k + 1,
            ));
        }
        k = k + 1;
    }
    assert(nodes@ =~= boundary_node_seq(boundary, width as nat, rows as nat));
    nodes
}

} // verus!
