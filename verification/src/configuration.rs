//! The settings that say where on the screen the daemons stand.

use crate::layout::{daemon_region, Rect};
use vstd::prelude::*;

verus! {

/// The vertical extent of one daemon's row.
#[derive(Debug, Clone, Copy, PartialEq, Eq, Structural)]
pub struct DaemonRow {
    pub top: i32,
    pub bottom: i32,
}

/// Where the daemons are looked for: from `left` as far as `max_length`
/// cells of `cell_width` reach, in each of `rows`.
#[derive(Debug)]
pub struct DaemonCfg {
    pub max_length: i32,
    pub left: i32,
    pub cell_width: i32,
    pub rows: Vec<DaemonRow>,
}

impl DaemonCfg {
    /// The width and every height that the settings ask for lie within the
    /// range of the coordinates.
    pub open spec fn placeable(&self) -> bool {
        &&& i32::MIN <= self.cell_width * self.max_length <= i32::MAX
        &&& forall|i: int|
            0 <= i < self.rows.len() ==> i32::MIN <= (#[trigger] self.rows[i]).bottom
                - self.rows[i].top <= i32::MAX
    }

    /// The part of the screen in which the daemon of row `i` is looked for.
    pub open spec fn region_of(&self, i: int) -> Rect {
        Rect {
            x: self.left,
            y: self.rows[i].top,
            width: (self.cell_width * self.max_length) as i32,
            height: (self.rows[i].bottom - self.rows[i].top) as i32,
        }
    }

    /// Whether the regions can be computed within the range of the
    /// coordinates.
    pub fn is_placeable(&self) -> (ok: bool)
        ensures
            ok == self.placeable(),
    {
        assert(-0x4000_0000_0000_0000 <= self.cell_width * self.max_length
            <= 0x4000_0000_0000_0000) by (nonlinear_arith)
            requires
                -0x8000_0000 <= self.cell_width <= 0x7fff_ffff,
                -0x8000_0000 <= self.max_length <= 0x7fff_ffff,
        ;
        let width: i64 = (self.cell_width as i64) * (self.max_length as i64);
        if width < -0x8000_0000 || width > 0x7fff_ffff {
            return false;
        }
        let mut i: usize = 0;
        while i < self.rows.len()
            invariant
                i <= self.rows.len(),
                forall|k: int|
                    0 <= k < i ==> i32::MIN <= (#[trigger] self.rows[k]).bottom - self.rows[k].top
                        <= i32::MAX,
            decreases self.rows.len() - i,
        {
            let height: i64 = (self.rows[i].bottom as i64) - (self.rows[i].top as i64);
            if height < -0x8000_0000 || height > 0x7fff_ffff {
                return false;
            }
            i = i + 1;
        }
        true
    }

    /// The part of the screen in which each daemon is looked for, one for
    /// each row, in the order of the rows.
    pub fn regions(&self) -> (regions: Vec<Rect>)
        requires
            self.placeable(),
        ensures
            regions.len() == self.rows.len(),
            forall|i: int| 0 <= i < regions.len() ==> #[trigger] regions[i] == self.region_of(i),
    {
        let mut regions: Vec<Rect> = Vec::new();
        let mut i: usize = 0;
        while i < self.rows.len()
            invariant
                self.placeable(),
                i <= self.rows.len(),
                regions.len() == i,
                forall|k: int| 0 <= k < i ==> #[trigger] regions[k] == self.region_of(k),
            decreases self.rows.len() - i,
        {
            let row = self.rows[i];
            assert(i32::MIN <= self.rows[i as int].bottom - self.rows[i as int].top <= i32::MAX);
            regions.push(
                daemon_region(self.left, row.top, row.bottom, self.cell_width, self.max_length),
            );
            i = i + 1;
        }
        regions
    }
}

} // verus!
