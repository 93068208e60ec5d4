//! Placing imported GeoJSON stations on the editor's grid.

use vstd::prelude::*;

verus! {

/// Importer of GeoJSON station and track features.
#[derive(Debug, Clone, Copy)]
pub struct GeoJsonImport;

/// The cells tried right after the ideal one: the four neighbours, the four
/// diagonals, then the cells two steps away in the four directions.
pub open spec fn nearby_offsets() -> Seq<(int, int)> {
    seq![(1, 0), (-1, 0), (0, 1), (0, -1), (1, 1), (1, -1), (-1, 1), (-1, -1), (2, 0), (-2, 0), (0, 2), (0, -2)]
}

/// Cell `p` is in the occupied list.
pub open spec fn is_occupied(occ: Seq<(i32, i32)>, p: (int, int)) -> bool {
    exists|i: int| 0 <= i < occ.len() && (#[trigger] occ[i]).0 == p.0 && occ[i].1 == p.1
}

/// `ideal` moved by `d`.
pub open spec fn shifted(ideal: (i32, i32), d: (int, int)) -> (int, int) {
    (ideal.0 + d.0, ideal.1 + d.1)
}

/// The first free cell among the nearby offsets from position `k` on.
pub open spec fn first_free_nearby(ideal: (i32, i32), occ: Seq<(i32, i32)>, k: int) -> Option<(int, int)>
    decreases 12 - k,
{
    if k < 0 || k >= 12 {
        None
    } else if !is_occupied(occ, shifted(ideal, nearby_offsets()[k])) {
        Some(shifted(ideal, nearby_offsets()[k]))
    } else {
        first_free_nearby(ideal, occ, k + 1)
    }
}

/// Absolute value.
pub open spec fn abs_int(x: int) -> int {
    if x < 0 { -x } else { x }
}

/// The first free cell on the square rings of radius `r..=5` around `ideal`,
/// from position `k` of ring `r` on; each ring is walked column by column
/// (`dx` from `-r` to `r`, and for each `dy` from `-r` to `r`).
pub open spec fn ring_scan(ideal: (i32, i32), occ: Seq<(i32, i32)>, r: int, k: int) -> Option<(int, int)>
    decreases 6 - r, (2 * r + 1) * (2 * r + 1) - k,
{
    if r < 3 || r > 5 || k < 0 {
        None
    } else if k >= (2 * r + 1) * (2 * r + 1) {
        ring_scan(ideal, occ, r + 1, 0)
    } else {
        let dx = k / (2 * r + 1) - r;
        let dy = k % (2 * r + 1) - r;
        let p = (ideal.0 + dx, ideal.1 + dy);
        if (abs_int(dx) == r || abs_int(dy) == r) && !is_occupied(occ, p) {
            Some(p)
        } else {
            ring_scan(ideal, occ, r, k + 1)
        }
    }
}

/// The cell chosen for a station whose ideal cell is `ideal`: the ideal cell
/// when free, else the first free nearby cell, else the first free cell on the
/// rings of radius 3 to 5, else the ideal cell after all.
pub open spec fn free_grid_cell_spec(ideal: (i32, i32), occ: Seq<(i32, i32)>) -> (int, int) {
    if !is_occupied(occ, (ideal.0 as int, ideal.1 as int)) {
        (ideal.0 as int, ideal.1 as int)
    } else {
        match first_free_nearby(ideal, occ, 0) {
            Some(p) => p,
            None => match ring_scan(ideal, occ, 3, 0) {
                Some(p) => p,
                None => (ideal.0 as int, ideal.1 as int),
            },
        }
    }
}

fn occupied_exec(occ: &[(i32, i32)], x: i32, y: i32) -> (r: bool)
    ensures
        r == is_occupied(occ@, (x as int, y as int)),
{
    let mut i: usize = 0;
    while i < occ.len()
        invariant
            i <= occ@.len(),
            forall|j: int| 0 <= j < i ==> !((#[trigger] occ@[j]).0 == x && occ@[j].1 == y),
        decreases occ.len() - i,
    {
        if occ[i].0 == x && occ[i].1 == y {
            return true;
        }
        i = i + 1;
    }
    false
}

/// Find a free grid cell, starting from the ideal position and spiralling outward.
pub fn find_free_grid_cell(ideal: (i32, i32), occupied: &[(i32, i32)]) -> (r: (i32, i32))
    requires
        i32::MIN + 5 <= ideal.0 <= i32::MAX - 5,
        i32::MIN + 5 <= ideal.1 <= i32::MAX - 5,
    ensures
        (r.0 as int, r.1 as int) == free_grid_cell_spec(ideal, occupied@),
{
    if !occupied_exec(occupied, ideal.0, ideal.1) {
        return ideal;
    }
    let nearby: Vec<(i32, i32)> = vec![
        (1, 0), (-1, 0), (0, 1), (0, -1), (1, 1), (1, -1), (-1, 1), (-1, -1), (2, 0), (-2, 0), (0, 2), (0, -2),
    ];
    assert(nearby@.len() == 12);
    assert forall|k: int| 0 <= k < 12 implies (#[trigger] nearby@[k]).0 == nearby_offsets()[k].0 && nearby@[k].1
        == nearby_offsets()[k].1 by {}
    let mut k: usize = 0;
    while k < 12
        invariant
            k <= 12,
            nearby@.len() == 12,
            i32::MIN + 5 <= ideal.0 <= i32::MAX - 5,
            i32::MIN + 5 <= ideal.1 <= i32::MAX - 5,
            forall|j: int| 0 <= j < 12 ==> (#[trigger] nearby@[j]).0 == nearby_offsets()[j].0 && nearby@[j].1
                == nearby_offsets()[j].1,
            first_free_nearby(ideal, occupied@, 0) == first_free_nearby(ideal, occupied@, k as int),
            is_occupied(occupied@, (ideal.0 as int, ideal.1 as int)),
        decreases 12 - k,
    {
        let (dx, dy) = nearby[k];
        assert(-2 <= dx <= 2 && -2 <= dy <= 2);
        let x = ideal.0 + dx;
        let y = ideal.1 + dy;
        if !occupied_exec(occupied, x, y) {
            return (x, y);
        }
        k = k + 1;
    }
    let mut radius: i32 = 3;
    while radius <= 5
        invariant
            3 <= radius <= 6,
            i32::MIN + 5 <= ideal.0 <= i32::MAX - 5,
            i32::MIN + 5 <= ideal.1 <= i32::MAX - 5,
            ring_scan(ideal, occupied@, 3, 0) == ring_scan(ideal, occupied@, radius as int, 0),
            is_occupied(occupied@, (ideal.0 as int, ideal.1 as int)),
            first_free_nearby(ideal, occupied@, 0) is None,
        decreases 6 - radius,
    {
        let side: i32 = 2 * radius + 1;
        assert(side * side <= 121) by (nonlinear_arith)
            requires 7 <= side <= 11;
        let cells: i32 = side * side;
        let mut c: i32 = 0;
        while c < cells
            invariant
                3 <= radius <= 5,
                side == 2 * radius + 1,
                cells == side * side,
                0 <= c <= cells,
                i32::MIN + 5 <= ideal.0 <= i32::MAX - 5,
                i32::MIN + 5 <= ideal.1 <= i32::MAX - 5,
                ring_scan(ideal, occupied@, 3, 0) == ring_scan(ideal, occupied@, radius as int, c as int),
                is_occupied(occupied@, (ideal.0 as int, ideal.1 as int)),
                first_free_nearby(ideal, occupied@, 0) is None,
            decreases cells - c,
        {
            let dx = c / side - radius;
            let dy = c % side - radius;
            assert(0 <= c / side < side) by (nonlinear_arith)
                requires 0 <= c < side * side, side > 0;
            let ax = if dx < 0 { -dx } else { dx };
            let ay = if dy < 0 { -dy } else { dy };
            if ax == radius || ay == radius {
                let x = ideal.0 + dx;
                let y = ideal.1 + dy;
                if !occupied_exec(occupied, x, y) {
                    return (x, y);
                }
            }
            c = c + 1;
        }
        radius = radius + 1;
    }
    ideal
}

proof fn lemma_nearby_found(ideal: (i32, i32), occ: Seq<(i32, i32)>, k: int)
    ensures
        first_free_nearby(ideal, occ, k) matches Some(p) ==> !is_occupied(occ, p) && abs_int(p.0 - ideal.0) <= 2
            && abs_int(p.1 - ideal.1) <= 2,
    decreases 12 - k,
{
    if 0 <= k < 12 {
        lemma_nearby_found(ideal, occ, k + 1);
    }
}

proof fn lemma_ring_found(ideal: (i32, i32), occ: Seq<(i32, i32)>, r: int, k: int)
    ensures
        ring_scan(ideal, occ, r, k) matches Some(p) ==> !is_occupied(occ, p) && abs_int(p.0 - ideal.0) <= 5
            && abs_int(p.1 - ideal.1) <= 5,
    decreases 6 - r, (2 * r + 1) * (2 * r + 1) - k,
{
    if r < 3 || r > 5 || k < 0 {
    } else if k >= (2 * r + 1) * (2 * r + 1) {
        lemma_ring_found(ideal, occ, r + 1, 0);
    } else {
        let side = 2 * r + 1;
        assert(0 <= k / side < side && 0 <= k % side < side) by (nonlinear_arith)
            requires 0 <= k < side * side, side > 0;
        lemma_ring_found(ideal, occ, r, k + 1);
    }
}

/// Where an imported station lands: its ideal cell when that is free;
/// otherwise a free cell, or the ideal cell itself when every cell tried is
/// taken; and never more than five cells away from the ideal cell in either
/// direction.
pub proof fn law_free_grid_cell(ideal: (i32, i32), occ: Seq<(i32, i32)>)
    ensures
        ({
            let r = free_grid_cell_spec(ideal, occ);
            &&& !is_occupied(occ, (ideal.0 as int, ideal.1 as int)) ==> r == (ideal.0 as int, ideal.1 as int)
            &&& !is_occupied(occ, r) || r == (ideal.0 as int, ideal.1 as int)
            &&& abs_int(r.0 - ideal.0) <= 5 && abs_int(r.1 - ideal.1) <= 5
        }),
{
    lemma_nearby_found(ideal, occ, 0);
    lemma_ring_found(ideal, occ, 3, 0);
}

} // verus!

