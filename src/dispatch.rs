//! Workgroup counts for dispatching a kernel over a number of items.

use vstd::prelude::*;

verus! {

/// The number of invocations in one workgroup.
pub const GROUP_SIZE: u32 = 256;

/// A three-dimensional workgroup count, as an indirect dispatch reads it.
#[derive(Clone, Copy, PartialEq, Eq, Structural, Debug)]
pub struct DispatchWorkgroups {
    pub count_x: u32,
    pub count_y: u32,
    pub count_z: u32,
}

/// The workgroups needed to cover `count` items, `group_size` per group:
/// `ceil(count / group_size)` along x, one along y and z.
pub fn generate_dispatch(group_size: u32, count: u32) -> (r: DispatchWorkgroups)
    requires
        group_size > 0,
    ensures
        r.count_x as int == (count as int + group_size as int - 1) / group_size as int,
        r.count_y == 1,
        r.count_z == 1,
{
    let whole = count / group_size;
    proof {
        let c = count as int;
        let g = group_size as int;
        if c % g != 0 {
            assert(g >= 2);
            assert(c / g <= c / 2) by (nonlinear_arith)
                requires
                    g >= 2,
                    c >= 0,
            ;
        }
    }
    let x = if count % group_size == 0 { whole } else { whole + 1 };
    proof {
        let c = count as int;
        let g = group_size as int;
        assert(c == g * (c / g) + c % g) by (nonlinear_arith)
            requires
                g > 0,
        ;
        if c % g == 0 {
            assert((c + g - 1) / g == c / g) by (nonlinear_arith)
                requires
                    g > 0,
                    c % g == 0,
                    c == g * (c / g) + c % g,
            ;
        } else {
            assert((c + g - 1) / g == c / g + 1) by (nonlinear_arith)
                requires
                    g > 0,
                    0 < c % g < g,
                    c == g * (c / g) + c % g,
            ;
        }
    }
    DispatchWorkgroups { count_x: x, count_y: 1, count_z: 1 }
}

/// The node and edge-ref dispatches of a contraction step.
pub fn generate_dispatches(group_size: u32, node_count: u32, edge_ref_count: u32) -> (r: (
    DispatchWorkgroups,
    DispatchWorkgroups,
))
    requires
        group_size > 0,
    ensures
        r.0.count_x as int == (node_count as int + group_size as int - 1) / group_size as int,
        r.1.count_x as int == (edge_ref_count as int + group_size as int - 1) / group_size as int,
        r.0.count_y == 1 && r.0.count_z == 1,
        r.1.count_y == 1 && r.1.count_z == 1,
{
    (generate_dispatch(group_size, node_count), generate_dispatch(group_size, edge_ref_count))
}

} // verus!
