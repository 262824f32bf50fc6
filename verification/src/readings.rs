//! What one sampling cycle reads from the system, as plain values.

use vstd::prelude::*;

verus! {

/// One mounted volume.
#[derive(Clone, Debug, PartialEq, Eq)]
pub struct DiskReading {
    /// The device path of the volume.
    pub name: String,
    /// The size of the volume in bytes.
    pub total_space: u64,
    /// The free space of the volume in bytes.
    pub available_space: u64,
}

impl DiskReading {
    /// A volume has no more free space than space.
    pub open spec fn wf(&self) -> bool {
        self.available_space <= self.total_space
    }

    /// The bytes in use.
    pub open spec fn used_space(&self) -> nat {
        (self.total_space - self.available_space) as nat
    }

    /// The reading of a volume; none where more space is free than there is.
    pub fn new(name: String, total_space: u64, available_space: u64) -> (disk: Option<DiskReading>)
        ensures
            disk is Some <==> available_space <= total_space,
            disk matches Some(d) ==> d.wf() && d.name@ == name@ && d.total_space == total_space
                && d.available_space == available_space,
    {
        if available_space <= total_space {
            Some(DiskReading { name, total_space, available_space })
        } else {
            None
        }
    }
}

/// Whether every volume of `disks` whose device path is `device` is well
/// formed: whether the space in use can be told for each volume that is shown.
pub open spec fn volumes_wf(disks: Seq<DiskReading>, device: Seq<char>) -> bool {
    forall|i: int|
        0 <= i < disks.len() && (#[trigger] disks[i]).name@ == device ==> disks[i].wf()
}

/// Tells whether every volume of `disks` whose device path is `device` is
/// well formed.
pub fn volumes_fit(disks: &Vec<DiskReading>, device: &str) -> (fit: bool)
    ensures
        fit == volumes_wf(disks@, device@),
{
    let wanted = String::from_str(device);
    let mut i: usize = 0;
    while i < disks.len()
        invariant
            i <= disks.len(),
            wanted@ == device@,
            forall|j: int|
                0 <= j < i && (#[trigger] disks@[j]).name@ == device@ ==> disks@[j].wf(),
        decreases disks.len() - i,
    {
        if disks[i].name == wanted && disks[i].available_space > disks[i].total_space {
            return false;
        }
        i = i + 1;
    }
    true
}

/// The byte counters of one network interface.
#[derive(Clone, Copy, Debug, PartialEq, Eq)]
pub struct NetworkReading {
    pub received: u64,
    pub transmitted: u64,
}

/// The sum of the bytes received over `interfaces`.
pub open spec fn total_received(interfaces: Seq<NetworkReading>) -> nat
    decreases interfaces.len(),
{
    if interfaces.len() == 0 {
        0
    } else {
        total_received(interfaces.drop_last()) + interfaces.last().received as nat
    }
}

/// The sum of the bytes transmitted over `interfaces`.
pub open spec fn total_transmitted(interfaces: Seq<NetworkReading>) -> nat
    decreases interfaces.len(),
{
    if interfaces.len() == 0 {
        0
    } else {
        total_transmitted(interfaces.drop_last()) + interfaces.last().transmitted as nat
    }
}

/// A local date and time of day on the 12-hour clock.
#[derive(Clone, Copy, Debug, PartialEq, Eq)]
pub struct ClockReading {
    pub day: u32,
    pub month: u32,
    pub year: i32,
    /// Whether the hour is after noon.
    pub pm: bool,
    /// The hour, from 1 to 12.
    pub hour: u32,
    pub minute: u32,
}

impl ClockReading {
    /// The fields are those of a calendar day and a time of day.
    pub open spec fn wf(&self) -> bool {
        &&& 1 <= self.day <= 31
        &&& 1 <= self.month <= 12
        &&& 1 <= self.hour <= 12
        &&& self.minute <= 59
    }
}

/// All that one sampling cycle reads.
#[derive(Clone, Debug, PartialEq, Eq)]
pub struct Readings {
    /// The long form of the operating system's version, where it is known.
    pub os: Option<String>,
    /// The global processor load in percent, as the bits of a single-precision
    /// number.
    pub cpu_load: u32,
    /// The memory in use, in kilobytes.
    pub memory_used: u64,
    /// The memory installed, in kilobytes.
    pub memory_total: u64,
    pub disks: Vec<DiskReading>,
    pub interfaces: Vec<NetworkReading>,
    pub clock: ClockReading,
}

} // verus!
