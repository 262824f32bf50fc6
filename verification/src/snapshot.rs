//! The snapshot: the segments of one sampling cycle, in their fixed order.

use vstd::prelude::*;
use crate::collect::{
    clock_line, clock_segment, cpu_segment, cpu_usage, memory_segment, memory_usage,
    network_segment, network_usage, os_info, os_segment, storage_info, storage_segment,
    storage_segments, views,
};
use crate::readings::{volumes_wf, DiskReading, Readings};
use crate::segment::{Align, Color, StatusLine, StatusLineView};

verus! {

/// The snapshot of `readings`: operating system, processor, memory, one
/// segment for each volume whose device path is `device`, network, clock.
pub open spec fn snapshot(readings: Readings, device: Seq<char>) -> Seq<StatusLineView> {
    seq![
        os_segment(readings.os),
        cpu_segment(readings.cpu_load),
        memory_segment(readings.memory_used, readings.memory_total),
    ] + storage_segments(readings.disks@, device) + seq![
        network_segment(readings.interfaces@),
        clock_segment(readings.clock),
    ]
}

/// Runs the collectors in their fixed order and joins what they give.
pub fn assemble(readings: Readings, device: &str) -> (lines: Vec<StatusLine>)
    requires
        volumes_wf(readings.disks@, device@),
    ensures
        views(lines@) == snapshot(readings, device@),
{
    let Readings { os, cpu_load, memory_used, memory_total, disks, interfaces, clock } = readings;
    let mut lines: Vec<StatusLine> = Vec::new();
    lines.push(os_info(os));
    lines.push(cpu_usage(cpu_load));
    lines.push(memory_usage(memory_used, memory_total));
    let mut volumes = storage_info(&disks, device);
    let ghost head = lines@;
    let ghost middle = volumes@;
    lines.append(&mut volumes);
    lines.push(network_usage(&interfaces));
    lines.push(clock_line(&clock));
    assert(views(lines@) =~= views(head) + views(middle) + seq![
        network_segment(interfaces@),
        clock_segment(clock),
    ]);
    assert(views(head) =~= seq![
        os_segment(os),
        cpu_segment(cpu_load),
        memory_segment(memory_used, memory_total),
    ]);
    lines
}

/// The number of volumes of `disks` whose device path is `device`.
pub open spec fn matching_volumes(disks: Seq<DiskReading>, device: Seq<char>) -> nat
    decreases disks.len(),
{
    if disks.len() == 0 {
        0
    } else if disks.last().name@ == device {
        matching_volumes(disks.drop_last(), device) + 1
    } else {
        matching_volumes(disks.drop_last(), device)
    }
}

/// There is one storage segment for each volume with the wanted device path,
/// each of them blue and without layout hints.
pub proof fn lemma_storage_segments(disks: Seq<DiskReading>, device: Seq<char>)
    ensures
        storage_segments(disks, device).len() == matching_volumes(disks, device),
        forall|i: int|
            0 <= i < storage_segments(disks, device).len() ==> {
                let segment = #[trigger] storage_segments(disks, device)[i];
                &&& segment.color == Color::BLUE@
                &&& segment.min_width is None
                &&& segment.align is None
            },
    decreases disks.len(),
{
    if disks.len() > 0 {
        lemma_storage_segments(disks.drop_last(), device);
    }
}

/// Where no volume has the wanted device path, there is no storage segment.
pub proof fn lemma_no_match_no_segment(disks: Seq<DiskReading>, device: Seq<char>)
    requires
        forall|i: int| 0 <= i < disks.len() ==> (#[trigger] disks[i]).name@ != device,
    ensures
        storage_segments(disks, device).len() == 0,
    decreases disks.len(),
{
    if disks.len() > 0 {
        lemma_no_match_no_segment(disks.drop_last(), device);
    }
}

/// The order of a snapshot is fixed: the operating system, processor and
/// memory segments come first, then one storage segment for each volume with
/// the wanted device path, then the network segment, and the clock segment
/// last.
pub proof fn lemma_snapshot_order(readings: Readings, device: Seq<char>)
    ensures
        ({
            let shot = snapshot(readings, device);
            let volumes = storage_segments(readings.disks@, device);
            &&& shot.len() == 5 + matching_volumes(readings.disks@, device)
            &&& volumes.len() == matching_volumes(readings.disks@, device)
            &&& shot[0] == os_segment(readings.os)
            &&& shot[1] == cpu_segment(readings.cpu_load)
            &&& shot[2] == memory_segment(readings.memory_used, readings.memory_total)
            &&& forall|i: int| 3 <= i < 3 + volumes.len() ==> #[trigger] shot[i] == volumes[i - 3]
            &&& shot[3 + volumes.len() as int] == network_segment(readings.interfaces@)
            &&& shot[4 + volumes.len() as int] == clock_segment(readings.clock)
        }),
{
    lemma_storage_segments(readings.disks@, device);
}

/// Where no volume has the wanted device path, a snapshot has five segments.
pub proof fn lemma_snapshot_without_volume(readings: Readings, device: Seq<char>)
    requires
        forall|i: int|
            0 <= i < readings.disks@.len() ==> (#[trigger] readings.disks@[i]).name@ != device,
    ensures
        snapshot(readings, device).len() == 5,
        snapshot(readings, device) == seq![
            os_segment(readings.os),
            cpu_segment(readings.cpu_load),
            memory_segment(readings.memory_used, readings.memory_total),
            network_segment(readings.interfaces@),
            clock_segment(readings.clock),
        ],
{
    lemma_no_match_no_segment(readings.disks@, device);
    assert(snapshot(readings, device) =~= seq![
        os_segment(readings.os),
        cpu_segment(readings.cpu_load),
        memory_segment(readings.memory_used, readings.memory_total),
        network_segment(readings.interfaces@),
        clock_segment(readings.clock),
    ]);
}

/// Every segment of a snapshot has one of the six colours of the palette.
pub proof fn lemma_snapshot_palette(readings: Readings, device: Seq<char>)
    ensures
        forall|i: int|
            0 <= i < snapshot(readings, device).len() ==> Color::in_palette(
                (#[trigger] snapshot(readings, device)[i]).color,
            ),
{
    lemma_snapshot_order(readings, device);
    lemma_storage_segments(readings.disks@, device);
    let shot = snapshot(readings, device);
    let volumes = storage_segments(readings.disks@, device);
    assert forall|i: int| 0 <= i < shot.len() implies Color::in_palette(
        (#[trigger] shot[i]).color,
    ) by {
        if 3 <= i < 3 + volumes.len() {
            assert(shot[i] == volumes[i - 3]);
        }
    }
}

/// No segment of a snapshot reserves a width, the clock segment, which is the
/// last, is aligned to the right, and no other segment is aligned.
pub proof fn lemma_snapshot_alignment(readings: Readings, device: Seq<char>)
    ensures
        ({
            let shot = snapshot(readings, device);
            &&& shot.len() >= 5
            &&& shot.last().align == Some(Align::Right)
            &&& forall|i: int| 0 <= i < shot.len() - 1 ==> (#[trigger] shot[i]).align is None
            &&& forall|i: int| 0 <= i < shot.len() ==> (#[trigger] shot[i]).min_width is None
        }),
{
    lemma_snapshot_order(readings, device);
    lemma_storage_segments(readings.disks@, device);
    let shot = snapshot(readings, device);
    let volumes = storage_segments(readings.disks@, device);
    assert forall|i: int| 0 <= i < shot.len() implies (#[trigger] shot[i]).min_width is None && (i
        < shot.len() - 1 ==> shot[i].align is None) by {
        if 3 <= i < 3 + volumes.len() {
            assert(shot[i] == volumes[i - 3]);
        }
    }
}

} // verus!
