//! Audio device choice for the settings pages: which devices a dropdown
//! lists, which one is current, and how each is labelled.

use vstd::prelude::*;
use vstd::string::StringExecFns;

verus! {

/// The label of the entry that stands for the system's default device.
pub const SYSTEM_DEFAULT: &'static str = "System Default";

/// Whether a device is wanted for input or for output.
#[derive(Clone, Copy, Debug, PartialEq, Eq, Structural)]
pub enum AudioDeviceKind {
    Input,
    Output,
}

/// A device as listed in a dropdown: its stable id and its name.
#[derive(Debug)]
pub struct AudioDeviceInfo {
    pub id: String,
    pub name: String,
}

/// A device as the host reports it, before it is filtered by kind. A device
/// whose id, or whose description with its name, could not be read has `None`
/// there.
pub struct DeviceReport {
    pub id: Option<String>,
    pub name: Option<String>,
    pub supports_input: bool,
    pub supports_output: bool,
}

impl AudioDeviceInfo {
    /// A copy of this device.
    pub fn duplicate(&self) -> (r: AudioDeviceInfo)
        ensures
            r.id@ == self.id@,
            r.name@ == self.name@,
    {
        AudioDeviceInfo { id: self.id.clone(), name: self.name.clone() }
    }

    /// The entry text of this device: its name, then its id in parentheses.
    pub fn display_text(&self) -> (r: String)
        ensures
            r@ == self.name@ + " ("@ + self.id@ + ")"@,
    {
        name_with_id(self.name.as_str(), self.id.as_str())
    }
}

/// The name, then the id in parentheses.
fn name_with_id(name: &str, id: &str) -> (r: String)
    ensures
        r@ == name@ + " ("@ + id@ + ")"@,
{
    let mut r = name.to_owned();
    r.append(" (");
    r.append(id);
    r.append(")");
    r
}

/// The position of the first device whose id is `id`, or -1.
pub open spec fn device_index(devices: Seq<AudioDeviceInfo>, id: Seq<char>) -> int
    decreases devices.len(),
{
    if devices.len() == 0 {
        -1
    } else if devices[0].id@ == id {
        0
    } else {
        let rest = device_index(devices.drop_first(), id);
        if rest < 0 {
            -1
        } else {
            rest + 1
        }
    }
}

proof fn lemma_device_index_bounds(devices: Seq<AudioDeviceInfo>, id: Seq<char>)
    ensures
        -1 <= device_index(devices, id) < devices.len(),
    decreases devices.len(),
{
    if devices.len() > 0 {
        lemma_device_index_bounds(devices.drop_first(), id);
    }
}

/// The device among `devices` whose id is `current_id`: the first such, if
/// an id is given and any device has it.
pub fn get_current_device(current_id: Option<&String>, devices: &[AudioDeviceInfo]) -> (r: Option<AudioDeviceInfo>)
    ensures
        match current_id {
            None => r is None,
            Some(id) => {
                let i = device_index(devices@, id@);
                &&& (i < 0 <==> r is None)
                &&& (i >= 0 ==> i < devices@.len() && r->Some_0.id@ == devices@[i].id@ && r->Some_0.name@
                    == devices@[i].name@)
            },
        },
{
    let id = match current_id {
        Some(id) => id,
        None => return None,
    };
    assert(current_id == Some(id));
    let mut i: usize = 0;
    proof {
        lemma_device_index_bounds(devices@, id@);
    }
    assert(devices@.skip(0) =~= devices@);
    while i < devices.len()
        invariant
            current_id == Some(id),
            i <= devices@.len(),
            device_index(devices@, id@) == if device_index(devices@.skip(i as int), id@) < 0 {
                -1
            } else {
                device_index(devices@.skip(i as int), id@) + i
            },
        decreases devices@.len() - i,
    {
        assert(devices@.skip(i as int).drop_first() =~= devices@.skip(i + 1));
        assert(devices@.skip(i as int)[0] == devices@[i as int]);
        if devices[i].id == *id {
            return Some(devices[i].duplicate());
        }
        i = i + 1;
    }
    None
}

/// The devices of `kind` among those the host reports, in order: those whose
/// id and description could be read and that support `kind`.
pub open spec fn devices_of_kind(kind: AudioDeviceKind, reports: Seq<DeviceReport>) -> Seq<(Seq<char>, Seq<char>)>
    decreases reports.len(),
{
    if reports.len() == 0 {
        seq![]
    } else {
        let rest = devices_of_kind(kind, reports.drop_last());
        let d = reports.last();
        let supported = match kind {
            AudioDeviceKind::Input => d.supports_input,
            AudioDeviceKind::Output => d.supports_output,
        };
        match (d.id, d.name) {
            (Some(id), Some(name)) => if supported {
                rest.push((id@, name@))
            } else {
                rest
            },
            _ => rest,
        }
    }
}

/// The id and name of each device in turn.
pub open spec fn devices_view(devices: Seq<AudioDeviceInfo>) -> Seq<(Seq<char>, Seq<char>)> {
    devices.map_values(|d: AudioDeviceInfo| (d.id@, d.name@))
}

/// Picks the devices of `kind` from those the host reports.
pub fn audio_devices_of_kind(kind: AudioDeviceKind, reports: &Vec<DeviceReport>) -> (r: Vec<AudioDeviceInfo>)
    ensures
        devices_view(r@) == devices_of_kind(kind, reports@),
{
    let mut out: Vec<AudioDeviceInfo> = Vec::new();
    let mut i: usize = 0;
    assert(reports@.take(0) =~= Seq::<DeviceReport>::empty());
    assert(devices_view(out@) =~= Seq::empty());
    while i < reports.len()
        invariant
            i <= reports@.len(),
            devices_view(out@) == devices_of_kind(kind, reports@.take(i as int)),
        decreases reports@.len() - i,
    {
        let d = &reports[i];
        assert(reports@.take(i + 1).drop_last() =~= reports@.take(i as int));
        assert(reports@.take(i + 1).last() == *d);
        let supported = match kind {
            AudioDeviceKind::Input => d.supports_input,
            AudioDeviceKind::Output => d.supports_output,
        };
        match (&d.id, &d.name) {
            (Some(id), Some(name)) => {
                if supported {
                    let ghost prev = out@;
                    out.push(AudioDeviceInfo { id: id.clone(), name: name.clone() });
                    assert(devices_view(out@) =~= devices_view(prev).push((id@, name@)));
                }
            },
            _ => {},
        }
        i = i + 1;
    }
    assert(reports@.take(reports@.len() as int) =~= reports@);
    out
}

/// The text a device dropdown shows: the current device's name, or the
/// system default where none is current.
pub fn dropdown_label(current: &Option<AudioDeviceInfo>) -> (r: String)
    ensures
        match current {
            Some(d) => r@ == d.name@,
            None => r@ == SYSTEM_DEFAULT@,
        },
{
    match current {
        Some(d) => d.name.clone(),
        None => SYSTEM_DEFAULT.to_owned(),
    }
}

} // verus!
