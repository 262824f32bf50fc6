//! The collectors: each turns one kind of reading into display segments.

use vstd::prelude::*;
use chrono::{Datelike, Timelike};
use crate::binary::{
    lemma_quotient_ordered, lemma_quotient_scaled, lemma_quotient_whole, quotient_tenths,
};
use crate::decimal::{decimal, pad_left, push_decimal, push_padded};
use crate::fixed::{
    fixed1, lemma_single_up_to_hundred, push_quotient_fixed1, quotient_fixed1, single_fixed1,
    single_text, SINGLE_HUNDRED,
};
use crate::readings::{
    total_received, total_transmitted, volumes_wf, ClockReading, DiskReading, NetworkReading,
};
use crate::segment::{Align, Color, StatusLine, StatusLineView};

verus! {

/// The unit of the memory figures: readings in kilobytes over this many are
/// shown as gigabytes.
pub const MEMORY_UNIT: u64 = 1_000_000;

/// The unit of the storage figures: readings in bytes over this many are shown
/// as gigabytes.
pub const STORAGE_UNIT: u64 = 1_000_000_000;

/// The unit of the network figures: readings in bytes over this many are shown
/// as megabytes.
pub const NETWORK_UNIT: u64 = 1_000_000;

/// The width to which the processor load is padded.
pub const LOAD_WIDTH: usize = 5;

/// The device path of the volume that is shown where no other is chosen.
pub const DEVICE: &'static str = "/dev/sda2";

/// The views of the segments of `lines`.
pub open spec fn views(lines: Seq<StatusLine>) -> Seq<StatusLineView> {
    lines.map_values(|line: StatusLine| line@)
}

/// A segment without layout hints.
pub open spec fn plain_segment(text: Seq<char>, color: Seq<char>) -> StatusLineView {
    StatusLineView { full_text: text, color, min_width: None, align: None }
}

/// The text of the operating system segment: the version, or `error` where
/// none is known.
pub open spec fn os_text(os: Option<String>) -> Seq<char> {
    match os {
        Some(version) => version@,
        None => "error"@,
    }
}

/// The operating system segment.
pub open spec fn os_segment(os: Option<String>) -> StatusLineView {
    plain_segment(os_text(os), Color::RED@)
}

/// Shows the operating system's version, or `error` where the system gave
/// none.
pub fn os_info(os: Option<String>) -> (line: StatusLine)
    ensures
        line@ == os_segment(os),
{
    match os {
        Some(version) => StatusLine::plain(version, Color::RED),
        None => StatusLine::plain(String::from_str("error"), Color::RED),
    }
}

/// The text of the processor segment: the load with one decimal, padded to
/// five characters, between a label and a percent sign.
pub open spec fn cpu_text(load: u32) -> Seq<char> {
    " : "@ + pad_left(single_fixed1(load), LOAD_WIDTH as nat, ' ') + " %"@
}

/// The processor segment.
pub open spec fn cpu_segment(load: u32) -> StatusLineView {
    plain_segment(cpu_text(load), Color::GREEN@)
}

/// Shows the global processor load, given in percent as the bits of a
/// single-precision number.
pub fn cpu_usage(load: u32) -> (line: StatusLine)
    ensures
        line@ == cpu_segment(load),
{
    let figure = single_text(load);
    let mut text = String::from_str(" : ");
    proof {
        reveal_strlit(" ");
    }
    push_padded(&mut text, figure.as_str(), LOAD_WIDTH, " ");
    text.append(" %");
    assert(text@ =~= cpu_text(load));
    StatusLine::plain(text, Color::GREEN)
}

/// A load from nothing to a hundred percent is shown in a text of ten
/// characters: the label, the figure in five, and the percent sign.
pub proof fn lemma_load_width(load: u32)
    requires
        load <= SINGLE_HUNDRED,
    ensures
        pad_left(single_fixed1(load), LOAD_WIDTH as nat, ' ').len() == LOAD_WIDTH,
        cpu_text(load).len() == 10,
{
    lemma_single_up_to_hundred(load);
    reveal_strlit(" : ");
    reveal_strlit(" %");
}

/// The text of a segment that sets a used amount against a total, both over
/// `unit` and with one decimal.
pub open spec fn usage_text(used: nat, total: nat, unit: nat) -> Seq<char> {
    " : "@ + quotient_fixed1(used, unit) + "G / "@ + quotient_fixed1(total, unit) + "G"@
}

/// Writes the text of a segment that sets a used amount against a total.
fn usage_line(used: u64, total: u64, unit: u64) -> (text: String)
    requires
        0 < unit <= 0x20_0000_0000_0000,
    ensures
        text@ == usage_text(used as nat, total as nat, unit as nat),
{
    let mut text = String::from_str(" : ");
    push_quotient_fixed1(&mut text, used as u128, unit);
    text.append("G / ");
    push_quotient_fixed1(&mut text, total as u128, unit);
    text.append("G");
    assert(text@ =~= usage_text(used as nat, total as nat, unit as nat));
    text
}

/// Amounts that are whole numbers of the unit are shown as those numbers and
/// no tenths, as far as they have no more than 53 bits.
pub proof fn lemma_usage_of_whole_units(used: nat, total: nat, unit: nat)
    requires
        unit > 0,
        used * unit < 0x20_0000_0000_0000,
        total * unit < 0x20_0000_0000_0000,
    ensures
        usage_text(used * unit, total * unit, unit) == " : "@ + decimal(used) + ".0G / "@
            + decimal(total) + ".0G"@,
{
    lemma_quotient_whole(used, unit);
    lemma_quotient_whole(total, unit);
    reveal_strlit(".0G / ");
    reveal_strlit(".0G");
    reveal_strlit("G / ");
    reveal_strlit("G");
    assert(fixed1(10 * used) =~= decimal(used) + seq!['.', '0']);
    assert(fixed1(10 * total) =~= decimal(total) + seq!['.', '0']);
    assert(usage_text(used * unit, total * unit, unit) =~= " : "@ + decimal(used) + ".0G / "@
        + decimal(total) + ".0G"@);
}

/// The unit of the storage figures is a thousand times that of the memory
/// figures: amounts in bytes are shown as storage as the thousandth of them is
/// shown as memory, as far as they have no more than 53 bits.
pub proof fn lemma_storage_unit_is_thousandfold(used: nat, total: nat)
    requires
        1000 * used < 0x20_0000_0000_0000,
        1000 * total < 0x20_0000_0000_0000,
    ensures
        STORAGE_UNIT == 1000 * MEMORY_UNIT,
        usage_text(1000 * used, 1000 * total, STORAGE_UNIT as nat) == usage_text(
            used,
            total,
            MEMORY_UNIT as nat,
        ),
{
    if used > 0 {
        lemma_quotient_scaled(used, MEMORY_UNIT as nat, 1000);
    }
    if total > 0 {
        lemma_quotient_scaled(total, MEMORY_UNIT as nat, 1000);
    }
}

/// The memory segment.
pub open spec fn memory_segment(used: u64, total: u64) -> StatusLineView {
    plain_segment(usage_text(used as nat, total as nat, MEMORY_UNIT as nat), Color::YELLOW@)
}

/// Shows the memory in use and the memory installed, both given in kilobytes,
/// in units of a million of them.
pub fn memory_usage(used: u64, total: u64) -> (line: StatusLine)
    ensures
        line@ == memory_segment(used, total),
{
    StatusLine::plain(usage_line(used, total, MEMORY_UNIT), Color::YELLOW)
}

/// The segment of one volume.
pub open spec fn storage_segment(disk: DiskReading) -> StatusLineView {
    plain_segment(
        usage_text(disk.used_space(), disk.total_space as nat, STORAGE_UNIT as nat),
        Color::BLUE@,
    )
}

/// A volume is never shown with more space in use than it has, as far as it
/// has less than `2^52` bytes.
pub proof fn lemma_used_within_total(disk: DiskReading)
    requires
        disk.wf(),
        disk.total_space < 0x10_0000_0000_0000,
    ensures
        quotient_tenths(disk.used_space(), STORAGE_UNIT as nat) <= quotient_tenths(
            disk.total_space as nat,
            STORAGE_UNIT as nat,
        ),
{
    lemma_quotient_ordered(disk.used_space(), disk.total_space as nat, STORAGE_UNIT as nat);
}

/// The segments of the volumes of `disks` whose device path is `device`, in
/// the order of `disks`.
pub open spec fn storage_segments(disks: Seq<DiskReading>, device: Seq<char>) -> Seq<
    StatusLineView,
>
    decreases disks.len(),
{
    if disks.len() == 0 {
        seq![]
    } else if disks.last().name@ == device {
        storage_segments(disks.drop_last(), device).push(storage_segment(disks.last()))
    } else {
        storage_segments(disks.drop_last(), device)
    }
}

/// Shows, for each volume whose device path is `device`, the space in use and
/// the space there is, both given in bytes, in units of a thousand million.
pub fn storage_info(disks: &Vec<DiskReading>, device: &str) -> (lines: Vec<StatusLine>)
    requires
        volumes_wf(disks@, device@),
    ensures
        views(lines@) == storage_segments(disks@, device@),
{
    let wanted = String::from_str(device);
    let mut lines: Vec<StatusLine> = Vec::new();
    let mut i: usize = 0;
    assert(views(lines@) =~= storage_segments(disks@.take(0), device@));
    while i < disks.len()
        invariant
            i <= disks.len(),
            volumes_wf(disks@, device@),
            wanted@ == device@,
            views(lines@) == storage_segments(disks@.take(i as int), device@),
        decreases disks.len() - i,
    {
        let disk = &disks[i];
        let ghost before = lines@;
        assert(disks@.take(i + 1).drop_last() =~= disks@.take(i as int));
        assert(disks@.take(i + 1).last() == disks@[i as int]);
        if disk.name == wanted {
            let used = disk.total_space - disk.available_space;
            let text = usage_line(used, disk.total_space, STORAGE_UNIT);
            lines.push(StatusLine::plain(text, Color::BLUE));
            assert(views(lines@) =~= views(before).push(storage_segment(*disk)));
        }
        i = i + 1;
    }
    assert(disks@.take(i as int) =~= disks@);
    lines
}

/// The text of the network segment: the bytes received and the bytes
/// transmitted, both over a million and with one decimal.
pub open spec fn network_text(received: nat, transmitted: nat) -> Seq<char> {
    " : "@ + quotient_fixed1(received, NETWORK_UNIT as nat) + "M |  : "@ + quotient_fixed1(
        transmitted,
        NETWORK_UNIT as nat,
    ) + "M"@
}

/// The network segment.
pub open spec fn network_segment(interfaces: Seq<NetworkReading>) -> StatusLineView {
    plain_segment(
        network_text(total_received(interfaces), total_transmitted(interfaces)),
        Color::MAGENTA@,
    )
}

/// Shows the bytes received and transmitted, summed over all interfaces, in
/// units of a million.
pub fn network_usage(interfaces: &Vec<NetworkReading>) -> (line: StatusLine)
    ensures
        line@ == network_segment(interfaces@),
{
    let mut received: u128 = 0;
    let mut transmitted: u128 = 0;
    let mut i: usize = 0;
    assert(interfaces@.take(0) =~= Seq::<NetworkReading>::empty());
    while i < interfaces.len()
        invariant
            i <= interfaces.len(),
            received == total_received(interfaces@.take(i as int)),
            transmitted == total_transmitted(interfaces@.take(i as int)),
            received <= i * 0xffff_ffff_ffff_ffff,
            transmitted <= i * 0xffff_ffff_ffff_ffff,
        decreases interfaces.len() - i,
    {
        assert(interfaces@.take(i + 1).drop_last() =~= interfaces@.take(i as int));
        assert(interfaces@.take(i + 1).last() == interfaces@[i as int]);
        received = received + interfaces[i].received as u128;
        transmitted = transmitted + interfaces[i].transmitted as u128;
        i = i + 1;
    }
    assert(interfaces@.take(i as int) =~= interfaces@);
    let mut text = String::from_str(" : ");
    push_quotient_fixed1(&mut text, received, NETWORK_UNIT);
    text.append("M |  : ");
    push_quotient_fixed1(&mut text, transmitted, NETWORK_UNIT);
    text.append("M");
    assert(text@ =~= network_text(
        total_received(interfaces@),
        total_transmitted(interfaces@),
    ));
    StatusLine::plain(text, Color::MAGENTA)
}

/// The text of a year: at least four digits, behind a minus sign where the
/// year is before the year 0.
pub open spec fn year_text(year: i32) -> Seq<char> {
    if year < 0 {
        "-"@ + pad_left(decimal((-year) as nat), 4, '0')
    } else {
        pad_left(decimal(year as nat), 4, '0')
    }
}

/// The text of the clock segment: day, month and year between strokes, then
/// hour and minute on the 12-hour clock, then the half of the day.
pub open spec fn clock_text(clock: ClockReading) -> Seq<char> {
    pad_left(decimal(clock.day as nat), 2, '0') + "/"@ + pad_left(
        decimal(clock.month as nat),
        2,
        '0',
    ) + "/"@ + year_text(clock.year) + " "@ + pad_left(decimal(clock.hour as nat), 2, '0') + ":"@
        + pad_left(decimal(clock.minute as nat), 2, '0') + " "@ + (if clock.pm {
        "PM"@
    } else {
        "AM"@
    })
}

/// The clock segment.
pub open spec fn clock_segment(clock: ClockReading) -> StatusLineView {
    StatusLineView {
        full_text: clock_text(clock),
        color: Color::CYAN@,
        min_width: None,
        align: Some(Align::Right),
    }
}

/// Appends the decimal digits of `n` to `out`, behind the zeros that bring
/// them to `width` digits.
fn push_zero_padded(out: &mut String, n: u128, width: usize)
    ensures
        final(out)@ == old(out)@ + pad_left(decimal(n as nat), width as nat, '0'),
{
    let mut digits = String::new();
    push_decimal(&mut digits, n);
    proof {
        reveal_strlit("0");
    }
    assert(digits@ =~= decimal(n as nat));
    push_padded(out, digits.as_str(), width, "0");
}

/// Shows a date and a time of day, aligned to the right.
pub fn clock_line(clock: &ClockReading) -> (line: StatusLine)
    ensures
        line@ == clock_segment(*clock),
{
    let mut text = String::new();
    push_zero_padded(&mut text, clock.day as u128, 2);
    text.append("/");
    push_zero_padded(&mut text, clock.month as u128, 2);
    text.append("/");
    if clock.year < 0 {
        text.append("-");
        push_zero_padded(&mut text, (-(clock.year as i64)) as u128, 4);
    } else {
        push_zero_padded(&mut text, clock.year as u128, 4);
    }
    text.append(" ");
    push_zero_padded(&mut text, clock.hour as u128, 2);
    text.append(":");
    push_zero_padded(&mut text, clock.minute as u128, 2);
    text.append(" ");
    if clock.pm {
        text.append("PM");
    } else {
        text.append("AM");
    }
    assert(text@ =~= clock_text(*clock));
    StatusLine {
        full_text: text,
        color: String::from_str(Color::CYAN),
        min_width: None,
        align: Some(Align::Right),
    }
}

/// `chrono::NaiveDateTime`, a date and a time of day without a time zone. It
/// is handed through to chrono's own functions and never looked into.
#[verifier::external_type_specification]
#[verifier::external_body]
pub struct ExNaiveDateTime(chrono::NaiveDateTime);

/// The day of the month that chrono reads from a date and time.
pub uninterp spec fn day_in(now: chrono::NaiveDateTime) -> u32;

/// The month that chrono reads from a date and time.
pub uninterp spec fn month_in(now: chrono::NaiveDateTime) -> u32;

/// The year that chrono reads from a date and time.
pub uninterp spec fn year_in(now: chrono::NaiveDateTime) -> i32;

/// The hour of the day that chrono reads from a date and time.
pub uninterp spec fn hour_in(now: chrono::NaiveDateTime) -> u32;

/// The minute that chrono reads from a date and time.
pub uninterp spec fn minute_in(now: chrono::NaiveDateTime) -> u32;

/// `chrono::Datelike::day` of a `NaiveDateTime`: the day of the month, which
/// goes by the date and time alone and which chrono documents to range from 1
/// to 31.
#[verifier::external_body]
fn day_of(now: &chrono::NaiveDateTime) -> (day: u32)
    ensures
        day == day_in(*now),
        1 <= day <= 31,
{
    now.day()
}

/// `chrono::Datelike::month` of a `NaiveDateTime`: the month, which goes by
/// the date and time alone and which chrono documents to range from 1 to 12.
#[verifier::external_body]
fn month_of(now: &chrono::NaiveDateTime) -> (month: u32)
    ensures
        month == month_in(*now),
        1 <= month <= 12,
{
    now.month()
}

/// `chrono::Datelike::year` of a `NaiveDateTime`: the year of the calendar
/// date, which goes by the date and time alone; of its range nothing is
/// claimed.
#[verifier::external_body]
fn year_of(now: &chrono::NaiveDateTime) -> (year: i32)
    ensures
        year == year_in(*now),
{
    now.year()
}

/// `chrono::Timelike::hour` of a `NaiveDateTime`: the hour of the day, which
/// goes by the date and time alone and which chrono documents to range from 0
/// to 23.
#[verifier::external_body]
fn hour_of(now: &chrono::NaiveDateTime) -> (hour: u32)
    ensures
        hour == hour_in(*now),
        hour <= 23,
{
    now.hour()
}

/// `chrono::Timelike::minute` of a `NaiveDateTime`: the minute, which goes by
/// the date and time alone and which chrono documents to range from 0 to 59.
#[verifier::external_body]
fn minute_of(now: &chrono::NaiveDateTime) -> (minute: u32)
    ensures
        minute == minute_in(*now),
        minute <= 59,
{
    now.minute()
}

/// The hour on the 12-hour clock: the hours of the day count from 12 through
/// 1 to 11 twice over, so that midnight and noon are both 12.
pub open spec fn hour12_of(hour: u32) -> u32 {
    if hour % 12 == 0 {
        12
    } else {
        hour % 12
    }
}

/// Turns an hour of the day into the half of the day, which is true from noon
/// on, and the hour on the 12-hour clock.
pub fn hour12(hour: u32) -> (half: (bool, u32))
    ensures
        half.0 == (hour >= 12),
        half.1 == hour12_of(hour),
        1 <= half.1 <= 12,
{
    let hour12 = hour % 12;
    if hour12 == 0 {
        (hour >= 12, 12)
    } else {
        (hour >= 12, hour12)
    }
}

/// What the clock segment shows of a date and time: the day, month, year and
/// minute that chrono reads from it, and its hour on the 12-hour clock.
pub open spec fn clock_of(now: chrono::NaiveDateTime) -> ClockReading {
    ClockReading {
        day: day_in(now),
        month: month_in(now),
        year: year_in(now),
        pm: hour_in(now) >= 12,
        hour: hour12_of(hour_in(now)),
        minute: minute_in(now),
    }
}

/// Reads from a date and time what the clock segment shows.
pub fn read_clock(now: &chrono::NaiveDateTime) -> (clock: ClockReading)
    ensures
        clock == clock_of(*now),
        clock.wf(),
{
    let half = hour12(hour_of(now));
    ClockReading {
        day: day_of(now),
        month: month_of(now),
        year: year_of(now),
        pm: half.0,
        hour: half.1,
        minute: minute_of(now),
    }
}

/// Shows the date and the time of day of `now`, aligned to the right.
pub fn time(now: &chrono::NaiveDateTime) -> (line: StatusLine)
    ensures
        clock_of(*now).wf(),
        line@ == clock_segment(clock_of(*now)),
{
    let clock = read_clock(now);
    clock_line(&clock)
}

} // verus!
