//! Logical-pixel geometry: the requested capture region, per-output records,
//! and the intersection query that selects which outputs a region touches.

use vstd::prelude::*;

verus! {

/// A user-requested capture region in logical pixels.
#[derive(Clone, Copy, Debug, PartialEq)]
pub struct Region {
    pub x: i32,
    pub y: i32,
    pub width: u32,
    pub height: u32,
}

/// One display output's record: protocol-side handles (as small integer ids
/// chosen by the caller) and the logical geometry learned from events.
#[derive(Clone, Copy, Debug, PartialEq)]
pub struct OutputInfo {
    /// Id standing for the compositor-side output object.
    pub id: u32,
    /// Id standing for the output's geometry-extension counterpart, once requested.
    pub xdg_id: Option<u32>,
    /// Logical origin, resolved by the geometry extension.
    pub x: i32,
    pub y: i32,
    /// Size from the output's current mode (later corrected from captured buffers).
    pub width: i32,
    pub height: i32,
    /// Integer scale factor mapping logical to physical pixels.
    pub scale: i32,
}

impl OutputInfo {
    /// Geometry an output record must satisfy once its events have been applied.
    pub open spec fn wf(self) -> bool {
        self.width >= 0 && self.height >= 0 && self.scale >= 1
    }
}

/// Half-open overlap test between a requested region and an output's logical
/// rectangle, on both axes.
pub open spec fn region_intersects_output(r: Region, o: OutputInfo) -> bool {
    (r.x as int) < o.x + o.width
    && r.x + r.width > o.x
    && (r.y as int) < o.y + o.height
    && r.y + r.height > o.y
}

/// The outputs a region touches, in discovery order.
pub open spec fn spec_intersecting(outputs: Seq<OutputInfo>, r: Region) -> Seq<OutputInfo> {
    outputs.filter(|o: OutputInfo| region_intersects_output(r, o))
}

/// Does the requested region overlap this output's logical rectangle?
pub fn output_intersects(o: &OutputInfo, r: &Region) -> (b: bool)
    ensures
        b == region_intersects_output(*r, *o),
{
    let rx = r.x as i64;
    let ry = r.y as i64;
    let rw = r.width as i64;
    let rh = r.height as i64;
    let ox = o.x as i64;
    let oy = o.y as i64;
    let ow = o.width as i64;
    let oh = o.height as i64;
    rx < ox + ow && rx + rw > ox && ry < oy + oh && ry + rh > oy
}

/// Pick the outputs a capture targets: those the requested region overlaps,
/// or, when no region was given or it touches nothing, the first output alone.
pub fn select_targets(outputs: &Vec<OutputInfo>, region: Option<Region>) -> (targets: Vec<
    OutputInfo,
>)
    ensures
        ({
            let filtered = match region {
                Some(r) => spec_intersecting(outputs@, r),
                None => Seq::<OutputInfo>::empty(),
            };
            if filtered.len() > 0 {
                targets@ == filtered
            } else if outputs@.len() > 0 {
                targets@ == seq![outputs@[0]]
            } else {
                targets@.len() == 0
            }
        }),
{
    let mut targets: Vec<OutputInfo> = Vec::new();
    if let Some(r) = region {
        let ghost pred = |o: OutputInfo| region_intersects_output(r, o);
        let mut i: usize = 0;
        while i < outputs.len()
            invariant
                0 <= i <= outputs@.len(),
                targets@ == outputs@.take(i as int).filter(pred),
                pred == (|o: OutputInfo| region_intersects_output(r, o)),
            decreases outputs@.len() - i,
        {
            if output_intersects(&outputs[i], &r) {
                targets.push(outputs[i]);
            }
            proof {
                reveal(Seq::filter);
                assert(outputs@.take(i + 1).drop_last() =~= outputs@.take(i as int));
                assert(outputs@.take(i + 1).last() == outputs@[i as int]);
            }
            i = i + 1;
        }
        proof {
            assert(outputs@.take(outputs@.len() as int) =~= outputs@);
        }
    }
    if targets.len() == 0 && outputs.len() > 0 {
        targets.push(outputs[0]);
        proof {
            assert(targets@ =~= seq![outputs@[0]]);
        }
    }
    targets
}

} // verus!
