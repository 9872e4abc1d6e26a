//! Registry discovery logic: recognizing advertised global interfaces,
//! negotiating bind versions, and keeping the per-output records that
//! protocol events update.

use vstd::prelude::*;
use crate::geometry::OutputInfo;

verus! {

/// The four global interfaces the client recognizes; everything else is ignored.
#[derive(Clone, Copy, Debug, PartialEq, Eq, Structural)]
pub enum InterfaceKind {
    Output,
    Shm,
    ScreencopyManager,
    XdgOutputManager,
    Unknown,
}

/// Feature level the client was written against, per interface.
pub const OUTPUT_FEATURE_LEVEL: u32 = 4;

pub const SHM_FEATURE_LEVEL: u32 = 1;

pub const SCREENCOPY_FEATURE_LEVEL: u32 = 3;

pub const XDG_OUTPUT_FEATURE_LEVEL: u32 = 3;

pub open spec fn wl_output_name() -> Seq<u8> {
    seq![119u8, 108u8, 95u8, 111u8, 117u8, 116u8, 112u8, 117u8, 116u8]
}

pub open spec fn wl_shm_name() -> Seq<u8> {
    seq![119u8, 108u8, 95u8, 115u8, 104u8, 109u8]
}

pub open spec fn screencopy_manager_name() -> Seq<u8> {
    seq![
        122u8, 119u8, 108u8, 114u8, 95u8, 115u8, 99u8, 114u8, 101u8, 101u8, 110u8, 99u8, 111u8,
        112u8, 121u8, 95u8, 109u8, 97u8, 110u8, 97u8, 103u8, 101u8, 114u8, 95u8, 118u8, 49u8,
    ]
}

pub open spec fn xdg_output_manager_name() -> Seq<u8> {
    seq![
        122u8, 120u8, 100u8, 103u8, 95u8, 111u8, 117u8, 116u8, 112u8, 117u8, 116u8, 95u8, 109u8,
        97u8, 110u8, 97u8, 103u8, 101u8, 114u8, 95u8, 118u8, 49u8,
    ]
}

/// Which recognized interface, if any, an advertised name denotes.
pub open spec fn spec_classify(s: Seq<u8>) -> InterfaceKind {
    if s == wl_output_name() {
        InterfaceKind::Output
    } else if s == wl_shm_name() {
        InterfaceKind::Shm
    } else if s == screencopy_manager_name() {
        InterfaceKind::ScreencopyManager
    } else if s == xdg_output_manager_name() {
        InterfaceKind::XdgOutputManager
    } else {
        InterfaceKind::Unknown
    }
}

fn is_wl_output(name: &[u8]) -> (r: bool)
    ensures
        r == (name@ == wl_output_name()),
{
    if name.len() != 9 {
        return false;
    }
    let r = name[0] == 119 && name[1] == 108 && name[2] == 95 && name[3] == 111 && name[4] == 117
        && name[5] == 116 && name[6] == 112 && name[7] == 117 && name[8] == 116;
    proof {
        if r {
            assert(name@ =~= wl_output_name());
        }
    }
    r
}

fn is_wl_shm(name: &[u8]) -> (r: bool)
    ensures
        r == (name@ == wl_shm_name()),
{
    if name.len() != 6 {
        return false;
    }
    let r = name[0] == 119 && name[1] == 108 && name[2] == 95 && name[3] == 115 && name[4] == 104
        && name[5] == 109;
    proof {
        if r {
            assert(name@ =~= wl_shm_name());
        }
    }
    r
}

fn is_screencopy_manager(name: &[u8]) -> (r: bool)
    ensures
        r == (name@ == screencopy_manager_name()),
{
    if name.len() != 26 {
        return false;
    }
    let r = name[0] == 122 && name[1] == 119 && name[2] == 108 && name[3] == 114 && name[4] == 95
        && name[5] == 115 && name[6] == 99 && name[7] == 114 && name[8] == 101 && name[9] == 101
        && name[10] == 110 && name[11] == 99 && name[12] == 111 && name[13] == 112 && name[14]
        == 121 && name[15] == 95 && name[16] == 109 && name[17] == 97 && name[18] == 110
        && name[19] == 97 && name[20] == 103 && name[21] == 101 && name[22] == 114 && name[23]
        == 95 && name[24] == 118 && name[25] == 49;
    proof {
        if r {
            assert(name@ =~= screencopy_manager_name());
        }
    }
    r
}

fn is_xdg_output_manager(name: &[u8]) -> (r: bool)
    ensures
        r == (name@ == xdg_output_manager_name()),
{
    if name.len() != 22 {
        return false;
    }
    let r = name[0] == 122 && name[1] == 120 && name[2] == 100 && name[3] == 103 && name[4] == 95
        && name[5] == 111 && name[6] == 117 && name[7] == 116 && name[8] == 112 && name[9] == 117
        && name[10] == 116 && name[11] == 95 && name[12] == 109 && name[13] == 97 && name[14]
        == 110 && name[15] == 97 && name[16] == 103 && name[17] == 101 && name[18] == 114
        && name[19] == 95 && name[20] == 118 && name[21] == 49;
    proof {
        if r {
            assert(name@ =~= xdg_output_manager_name());
        }
    }
    r
}

/// Recognize an advertised global interface by name.
pub fn classify_interface(name: &[u8]) -> (g: InterfaceKind)
    ensures
        g == spec_classify(name@),
{
    if is_wl_output(name) {
        InterfaceKind::Output
    } else if is_wl_shm(name) {
        InterfaceKind::Shm
    } else if is_screencopy_manager(name) {
        InterfaceKind::ScreencopyManager
    } else if is_xdg_output_manager(name) {
        InterfaceKind::XdgOutputManager
    } else {
        InterfaceKind::Unknown
    }
}

/// The feature level the client requests for a recognized interface.
pub open spec fn spec_feature_level(kind: InterfaceKind) -> u32 {
    match kind {
        InterfaceKind::Output => OUTPUT_FEATURE_LEVEL,
        InterfaceKind::Shm => SHM_FEATURE_LEVEL,
        InterfaceKind::ScreencopyManager => SCREENCOPY_FEATURE_LEVEL,
        InterfaceKind::XdgOutputManager => XDG_OUTPUT_FEATURE_LEVEL,
        InterfaceKind::Unknown => 0,
    }
}

/// Version to bind: the minimum of the advertised version and the feature
/// level the client was written against.
pub open spec fn spec_bind_version(kind: InterfaceKind, advertised: u32) -> u32 {
    if advertised <= spec_feature_level(kind) {
        advertised
    } else {
        spec_feature_level(kind)
    }
}

pub fn bind_version(kind: InterfaceKind, advertised: u32) -> (v: u32)
    ensures
        v == spec_bind_version(kind, advertised),
{
    let level = match kind {
        InterfaceKind::Output => OUTPUT_FEATURE_LEVEL,
        InterfaceKind::Shm => SHM_FEATURE_LEVEL,
        InterfaceKind::ScreencopyManager => SCREENCOPY_FEATURE_LEVEL,
        InterfaceKind::XdgOutputManager => XDG_OUTPUT_FEATURE_LEVEL,
        InterfaceKind::Unknown => 0,
    };
    if advertised <= level {
        advertised
    } else {
        level
    }
}

/// The record a newly advertised output starts from: geometry unknown,
/// default scale 1, no geometry-extension counterpart yet.
pub open spec fn default_output(id: u32) -> OutputInfo {
    OutputInfo { id, xdg_id: None, x: 0, y: 0, width: 0, height: 0, scale: 1 }
}

/// Append the record for a newly advertised output.
pub fn register_output(outputs: &mut Vec<OutputInfo>, id: u32)
    ensures
        final(outputs)@ == old(outputs)@.push(default_output(id)),
{
    outputs.push(OutputInfo { id, xdg_id: None, x: 0, y: 0, width: 0, height: 0, scale: 1 });
}

/// Events an output object delivers that the registry reads.
#[derive(Clone, Copy, Debug)]
pub enum OutputEvent {
    /// A mode advertisement; only the current mode sets the size, in physical pixels.
    Mode { current: bool, width: i32, height: i32 },
    Scale { factor: i32 },
    Other,
}

/// Events the output-geometry extension delivers that the registry reads.
#[derive(Clone, Copy, Debug)]
pub enum XdgOutputEvent {
    LogicalPosition { x: i32, y: i32 },
    Other,
}

/// One output record after one of its own events.
pub open spec fn spec_apply_output_event(o: OutputInfo, e: OutputEvent) -> OutputInfo {
    match e {
        OutputEvent::Mode { current, width, height } => if current {
            OutputInfo { width, height, ..o }
        } else {
            o
        },
        OutputEvent::Scale { factor } => OutputInfo { scale: factor, ..o },
        OutputEvent::Other => o,
    }
}

/// One output record after a geometry-extension event of its counterpart.
pub open spec fn spec_apply_xdg_event(o: OutputInfo, e: XdgOutputEvent) -> OutputInfo {
    match e {
        XdgOutputEvent::LogicalPosition { x, y } => OutputInfo { x, y, ..o },
        XdgOutputEvent::Other => o,
    }
}

pub open spec fn has_id(s: Seq<OutputInfo>, id: u32) -> bool {
    exists|i: int| 0 <= i < s.len() && s[i].id == id
}

/// Index of the first record with this output id (meaningful only when one exists).
pub open spec fn first_with_id(s: Seq<OutputInfo>, id: u32) -> int
    decreases s.len(),
{
    if s.len() == 0 {
        0
    } else if s[0].id == id {
        0
    } else {
        1 + first_with_id(s.drop_first(), id)
    }
}

pub open spec fn has_xdg_id(s: Seq<OutputInfo>, xdg_id: u32) -> bool {
    exists|i: int| 0 <= i < s.len() && s[i].xdg_id == Some(xdg_id)
}

/// Index of the first record with this geometry-extension id (meaningful only
/// when one exists).
pub open spec fn first_with_xdg_id(s: Seq<OutputInfo>, xdg_id: u32) -> int
    decreases s.len(),
{
    if s.len() == 0 {
        0
    } else if s[0].xdg_id == Some(xdg_id) {
        0
    } else {
        1 + first_with_xdg_id(s.drop_first(), xdg_id)
    }
}

/// The registry after an output event: the first record with a matching id is
/// updated by linear scan; an unknown id changes nothing.
pub open spec fn spec_handle_output_event(s: Seq<OutputInfo>, id: u32, e: OutputEvent) -> Seq<
    OutputInfo,
> {
    if has_id(s, id) {
        let i = first_with_id(s, id);
        s.update(i, spec_apply_output_event(s[i], e))
    } else {
        s
    }
}

/// The registry after a geometry-extension event, analogously.
pub open spec fn spec_handle_xdg_event(s: Seq<OutputInfo>, xdg_id: u32, e: XdgOutputEvent) -> Seq<
    OutputInfo,
> {
    if has_xdg_id(s, xdg_id) {
        let i = first_with_xdg_id(s, xdg_id);
        s.update(i, spec_apply_xdg_event(s[i], e))
    } else {
        s
    }
}

proof fn lemma_first_with_id(s: Seq<OutputInfo>, id: u32, i: int)
    requires
        0 <= i < s.len(),
        s[i].id == id,
        forall|j: int| 0 <= j < i ==> s[j].id != id,
    ensures
        first_with_id(s, id) == i,
    decreases i,
{
    if i > 0 {
        lemma_first_with_id(s.drop_first(), id, i - 1);
    }
}

proof fn lemma_first_with_xdg_id(s: Seq<OutputInfo>, xdg_id: u32, i: int)
    requires
        0 <= i < s.len(),
        s[i].xdg_id == Some(xdg_id),
        forall|j: int| 0 <= j < i ==> s[j].xdg_id != Some(xdg_id),
    ensures
        first_with_xdg_id(s, xdg_id) == i,
    decreases i,
{
    if i > 0 {
        lemma_first_with_xdg_id(s.drop_first(), xdg_id, i - 1);
    }
}

/// Apply an output event to the registry, scanning for the record it names.
pub fn handle_output_event(outputs: &mut Vec<OutputInfo>, id: u32, e: OutputEvent)
    ensures
        final(outputs)@ == spec_handle_output_event(old(outputs)@, id, e),
{
    let mut i: usize = 0;
    while i < outputs.len()
        invariant
            0 <= i <= outputs@.len(),
            outputs@ == old(outputs)@,
            forall|j: int| 0 <= j < i ==> outputs@[j].id != id,
        decreases outputs@.len() - i,
    {
        if outputs[i].id == id {
            proof {
                lemma_first_with_id(outputs@, id, i as int);
            }
            let updated = apply_output_event(&outputs[i], e);
            outputs.set(i, updated);
            return ;
        }
        i = i + 1;
    }
    proof {
        assert(!has_id(outputs@, id));
    }
}

/// Apply a geometry-extension event to the registry.
pub fn handle_xdg_event(outputs: &mut Vec<OutputInfo>, xdg_id: u32, e: XdgOutputEvent)
    ensures
        final(outputs)@ == spec_handle_xdg_event(old(outputs)@, xdg_id, e),
{
    let mut i: usize = 0;
    while i < outputs.len()
        invariant
            0 <= i <= outputs@.len(),
            outputs@ == old(outputs)@,
            forall|j: int| 0 <= j < i ==> outputs@[j].xdg_id != Some(xdg_id),
        decreases outputs@.len() - i,
    {
        let matches_here = match outputs[i].xdg_id {
            Some(v) => v == xdg_id,
            None => false,
        };
        if matches_here {
            proof {
                lemma_first_with_xdg_id(outputs@, xdg_id, i as int);
            }
            let updated = apply_xdg_event(&outputs[i], e);
            outputs.set(i, updated);
            return ;
        }
        i = i + 1;
    }
    proof {
        assert(!has_xdg_id(outputs@, xdg_id));
    }
}

fn apply_output_event(o: &OutputInfo, e: OutputEvent) -> (r: OutputInfo)
    ensures
        r == spec_apply_output_event(*o, e),
{
    match e {
        OutputEvent::Mode { current, width, height } => {
            if current {
                OutputInfo { width, height, ..*o }
            } else {
                *o
            }
        },
        OutputEvent::Scale { factor } => OutputInfo { scale: factor, ..*o },
        OutputEvent::Other => *o,
    }
}

fn apply_xdg_event(o: &OutputInfo, e: XdgOutputEvent) -> (r: OutputInfo)
    ensures
        r == spec_apply_xdg_event(*o, e),
{
    match e {
        XdgOutputEvent::LogicalPosition { x, y } => OutputInfo { x, y, ..*o },
        XdgOutputEvent::Other => *o,
    }
}

/// Does this output still lack its geometry-extension counterpart?
pub fn output_needs_xdg(o: &OutputInfo) -> (b: bool)
    ensures
        b == (o.xdg_id is None),
{
    o.xdg_id.is_none()
}

/// Record the geometry-extension counterpart requested for one output.
pub fn assign_xdg_id(outputs: &mut Vec<OutputInfo>, index: usize, xdg_id: u32)
    requires
        index < old(outputs)@.len(),
    ensures
        final(outputs)@ == old(outputs)@.update(
            index as int,
            (OutputInfo { xdg_id: Some(xdg_id), ..old(outputs)@[index as int] }),
        ),
{
    let updated = OutputInfo { xdg_id: Some(xdg_id), ..outputs[index] };
    outputs.set(index, updated);
}

} // verus!
