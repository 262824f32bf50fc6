use chrono::{NaiveDate, NaiveTime, Timelike};
use sysbar::collect::{
    clock_line, cpu_usage, hour12, memory_usage, network_usage, os_info, read_clock,
    storage_info, time,
    DEVICE, MEMORY_UNIT, NETWORK_UNIT, STORAGE_UNIT,
};
use sysbar::readings::{volumes_fit, ClockReading, DiskReading, NetworkReading};
use sysbar::segment::{Align, Color, StatusLine};

fn disk(name: &str, total_space: u64, available_space: u64) -> DiskReading {
    DiskReading::new(name.to_string(), total_space, available_space).unwrap()
}

fn clock(day: u32, month: u32, year: i32, pm: bool, hour: u32, minute: u32) -> ClockReading {
    ClockReading { day, month, year, pm, hour, minute }
}

#[test]
fn os_identity_shows_the_version() {
    let line = os_info(Some("Linux 22.04 Ubuntu".to_string()));
    assert_eq!(line.full_text, "Linux 22.04 Ubuntu");
    assert_eq!(line.color, "#ea6962");
    assert_eq!(line.min_width, None);
    assert_eq!(line.align, None);
}

#[test]
fn os_identity_without_a_version_shows_error() {
    let line = os_info(None);
    assert_eq!(line.full_text, "error");
    assert_eq!(line.color, Color::RED);
    assert_eq!(line.min_width, None);
    assert_eq!(line.align, None);
}

#[test]
fn os_identity_keeps_an_empty_version() {
    assert_eq!(os_info(Some(String::new())).full_text, "");
}

#[test]
fn cpu_load_is_padded_to_five_characters() {
    assert_eq!(cpu_usage(0f32.to_bits()).full_text, " :   0.0 %");
    assert_eq!(cpu_usage(5.25f32.to_bits()).full_text, " :   5.2 %");
    assert_eq!(cpu_usage(12.34f32.to_bits()).full_text, " :  12.3 %");
    assert_eq!(cpu_usage(99.96f32.to_bits()).full_text, " : 100.0 %");
    assert_eq!(cpu_usage(100f32.to_bits()).full_text, " : 100.0 %");
    assert_eq!(cpu_usage(1234.5f32.to_bits()).full_text, " : 1234.5 %");
    assert_eq!(cpu_usage(f32::NAN.to_bits()).full_text, " :   NaN %");
    assert_eq!(cpu_usage(f32::INFINITY.to_bits()).full_text, " :   inf %");
    assert_eq!(cpu_usage((-1.5f32).to_bits()).full_text, " :  -1.5 %");
}

#[test]
fn cpu_load_matches_the_standard_formatting() {
    for k in 0u32..=20_000 {
        let load = k as f32 / 173.0;
        assert_eq!(cpu_usage(load.to_bits()).full_text, format!(" : {:>5.1} %", load));
    }
}

#[test]
fn cpu_segment_is_green_and_plain() {
    let line = cpu_usage(42f32.to_bits());
    assert_eq!(line.color, "#a9b665");
    assert_eq!(line.min_width, None);
    assert_eq!(line.align, None);
}

#[test]
fn memory_of_four_out_of_eight_million_kilobytes() {
    let line = memory_usage(4_000_000, 8_000_000);
    assert_eq!(line.full_text, " : 4.0G / 8.0G");
    assert_eq!(line.color, "#d8a657");
    assert_eq!(line.min_width, None);
    assert_eq!(line.align, None);
}

#[test]
fn memory_matches_double_arithmetic() {
    let mut used = 1u64;
    while used < u64::MAX / 3 {
        let total = used.wrapping_mul(2654435761).wrapping_add(17);
        let expected =
            format!(" : {:.1}G / {:.1}G", used as f64 / 1000000.0, total as f64 / 1000000.0);
        assert_eq!(memory_usage(used, total).full_text, expected);
        used = used * 3 + 50_000;
    }
    assert_eq!(memory_usage(0, 0).full_text, " : 0.0G / 0.0G");
    assert_eq!(
        memory_usage(u64::MAX, u64::MAX).full_text,
        format!(" : {:.1}G / {:.1}G", u64::MAX as f64 / 1000000.0, u64::MAX as f64 / 1000000.0)
    );
}

#[test]
fn memory_formatting_is_the_same_for_the_same_readings() {
    let first = memory_usage(7_654_321, 16_329_004);
    let second = memory_usage(7_654_321, 16_329_004);
    assert_eq!(first, second);
    assert_eq!(first.full_text, " : 7.7G / 16.3G");
    let disks = vec![disk(DEVICE, 250_059_350_016, 100_000_000_000)];
    assert_eq!(storage_info(&disks, DEVICE), storage_info(&disks, DEVICE));
}

#[test]
fn memory_and_storage_use_different_units() {
    assert_eq!(MEMORY_UNIT, 1_000_000);
    assert_eq!(STORAGE_UNIT, 1_000_000_000);
    assert_ne!(MEMORY_UNIT, STORAGE_UNIT);
    let memory = memory_usage(4_000_000, 8_000_000);
    let storage = storage_info(&vec![disk(DEVICE, 8_000_000, 4_000_000)], DEVICE);
    assert_eq!(memory.full_text, " : 4.0G / 8.0G");
    assert_eq!(storage[0].full_text, " : 0.0G / 0.0G");
    assert_ne!(memory.full_text, storage[0].full_text);
    let scaled = storage_info(&vec![disk(DEVICE, 8_000_000_000, 4_000_000_000)], DEVICE);
    assert_eq!(scaled[0].full_text, memory.full_text);
}

#[test]
fn storage_shows_the_wanted_volume_only() {
    let disks = vec![
        disk("/dev/sda1", 536_870_912, 500_000_000),
        disk("/dev/sda2", 500_107_862_016, 123_456_789_012),
        disk("/dev/sdb1", 2_000_398_934_016, 1_000_000_000_000),
    ];
    let lines = storage_info(&disks, "/dev/sda2");
    assert_eq!(lines.len(), 1);
    let expected = format!(
        " : {:.1}G / {:.1}G",
        (500_107_862_016u64 - 123_456_789_012u64) as f64 / 1000000000.0,
        500_107_862_016u64 as f64 / 1000000000.0
    );
    assert_eq!(lines[0].full_text, expected);
    assert_eq!(lines[0].full_text, " : 376.7G / 500.1G");
    assert_eq!(lines[0].color, "#7daea3");
    assert_eq!(lines[0].min_width, None);
    assert_eq!(lines[0].align, None);
}

#[test]
fn storage_without_the_wanted_volume_is_empty() {
    let disks = vec![disk("/dev/nvme0n1p1", 1_000, 10), disk("/dev/sda20", 1_000, 10)];
    assert_eq!(storage_info(&disks, DEVICE), Vec::<StatusLine>::new());
    assert_eq!(storage_info(&Vec::new(), DEVICE).len(), 0);
}

#[test]
fn storage_shows_each_match_in_order() {
    let disks = vec![
        disk("/dev/sda2", 3_000_000_000, 1_000_000_000),
        disk("/dev/sdc", 9_000_000_000, 1_000_000_000),
        disk("/dev/sda2", 5_000_000_000, 5_000_000_000),
    ];
    let lines = storage_info(&disks, "/dev/sda2");
    assert_eq!(lines.len(), 2);
    assert_eq!(lines[0].full_text, " : 2.0G / 3.0G");
    assert_eq!(lines[1].full_text, " : 0.0G / 5.0G");
}

#[test]
fn storage_takes_the_device_it_is_given() {
    let disks = vec![disk("/dev/sda2", 3_000_000_000, 0), disk("/dev/mapper/root", 7_500_000_000, 0)];
    let lines = storage_info(&disks, "/dev/mapper/root");
    assert_eq!(lines.len(), 1);
    assert_eq!(lines[0].full_text, " : 7.5G / 7.5G");
    assert_eq!(DEVICE, "/dev/sda2");
}

#[test]
fn a_volume_has_no_more_free_space_than_space() {
    assert!(DiskReading::new("/dev/sda2".to_string(), 10, 10).is_some());
    assert!(DiskReading::new("/dev/sda2".to_string(), 10, 11).is_none());
    let made = DiskReading::new("/dev/sda2".to_string(), 10, 4).unwrap();
    assert_eq!(made.name, "/dev/sda2");
    assert_eq!(made.total_space, 10);
    assert_eq!(made.available_space, 4);
    let broken =
        DiskReading { name: "/dev/sda2".to_string(), total_space: 1, available_space: 2 };
    assert!(!volumes_fit(&vec![broken.clone()], "/dev/sda2"));
    assert!(volumes_fit(&vec![broken], "/dev/sdb"));
    assert!(volumes_fit(&vec![made], "/dev/sda2"));
}

#[test]
fn network_sums_all_interfaces() {
    let interfaces = vec![
        NetworkReading { received: 1_500_000, transmitted: 250_000 },
        NetworkReading { received: 2_000_000, transmitted: 0 },
        NetworkReading { received: 49_999, transmitted: 1_000_000 },
    ];
    let line = network_usage(&interfaces);
    assert_eq!(line.full_text, " : 3.5M |  : 1.2M");
    assert_eq!(line.color, "#d3869b");
    assert_eq!(line.min_width, None);
    assert_eq!(line.align, None);
    assert_eq!(NETWORK_UNIT, 1_000_000);
}

#[test]
fn network_without_interfaces_shows_zero() {
    assert_eq!(network_usage(&Vec::new()).full_text, " : 0.0M |  : 0.0M");
}

#[test]
fn network_sums_do_not_wrap() {
    let interfaces = vec![
        NetworkReading { received: u64::MAX, transmitted: u64::MAX };
        3
    ];
    let sum = 3 * (u64::MAX as u128);
    let expected = format!(" : {:.1}M |  : {:.1}M", sum as f64 / 1000000.0, sum as f64 / 1000000.0);
    assert_eq!(network_usage(&interfaces).full_text, expected);
}

#[test]
fn clock_shows_day_month_year_and_the_12_hour_time() {
    let line = clock_line(&clock(5, 3, 2024, true, 3, 4));
    assert_eq!(line.full_text, "05/03/2024 03:04 PM");
    assert_eq!(line.color, "#89b482");
    assert_eq!(line.min_width, None);
    assert_eq!(line.align, Some(Align::Right));
    assert_eq!(clock_line(&clock(31, 12, 1999, false, 12, 0)).full_text, "31/12/1999 12:00 AM");
    assert_eq!(clock_line(&clock(1, 1, 2000, true, 12, 59)).full_text, "01/01/2000 12:59 PM");
}

#[test]
fn clock_pads_the_year_to_four_digits() {
    assert_eq!(clock_line(&clock(1, 1, 0, false, 1, 1)).full_text, "01/01/0000 01:01 AM");
    assert_eq!(clock_line(&clock(9, 9, 987, false, 9, 9)).full_text, "09/09/0987 09:09 AM");
    assert_eq!(clock_line(&clock(9, 9, 12345, false, 9, 9)).full_text, "09/09/12345 09:09 AM");
    assert_eq!(clock_line(&clock(9, 9, -44, true, 9, 9)).full_text, "09/09/-0044 09:09 PM");
    assert_eq!(
        clock_line(&clock(9, 9, i32::MIN, true, 9, 9)).full_text,
        "09/09/-2147483648 09:09 PM"
    );
}

#[test]
fn time_reads_the_clock_from_a_date_and_time() {
    let afternoon = NaiveDate::from_ymd_opt(2024, 3, 5).unwrap().and_hms_opt(15, 4, 59).unwrap();
    let line = time(&afternoon);
    assert_eq!(line.full_text, "05/03/2024 03:04 PM");
    assert_eq!(line.color, Color::CYAN);
    assert_eq!(line.align, Some(Align::Right));
    assert_eq!(line.min_width, None);
    let midnight = NaiveDate::from_ymd_opt(1987, 11, 30).unwrap().and_hms_opt(0, 30, 0).unwrap();
    assert_eq!(time(&midnight).full_text, "30/11/1987 12:30 AM");
    let noon = NaiveDate::from_ymd_opt(2031, 1, 9).unwrap().and_hms_opt(12, 0, 1).unwrap();
    assert_eq!(time(&noon).full_text, "09/01/2031 12:00 PM");
    assert_eq!(read_clock(&noon), clock(9, 1, 2031, true, 12, 0));
    let late = NaiveDate::from_ymd_opt(2031, 10, 19).unwrap().and_hms_opt(23, 59, 59).unwrap();
    assert_eq!(read_clock(&late), clock(19, 10, 2031, true, 11, 59));
}

#[test]
fn the_palette_has_six_colours() {
    let palette = [
        Color::RED,
        Color::GREEN,
        Color::YELLOW,
        Color::BLUE,
        Color::MAGENTA,
        Color::CYAN,
    ];
    assert_eq!(palette, ["#ea6962", "#a9b665", "#d8a657", "#7daea3", "#d3869b", "#89b482"]);
}

#[test]
fn the_default_segment_is_empty() {
    let line = StatusLine::default();
    assert_eq!(line.full_text, "");
    assert_eq!(line.color, "");
    assert_eq!(line.min_width, None);
    assert_eq!(line.align, None);
    let plain = StatusLine::plain("text".to_string(), Color::BLUE);
    assert_eq!(plain.full_text, "text");
    assert_eq!(plain.color, "#7daea3");
}

#[test]
fn hour_on_the_12_hour_clock() {
    assert_eq!(hour12(0), (false, 12));
    assert_eq!(hour12(1), (false, 1));
    assert_eq!(hour12(11), (false, 11));
    assert_eq!(hour12(12), (true, 12));
    assert_eq!(hour12(13), (true, 1));
    assert_eq!(hour12(23), (true, 11));
    for hour in 0..24 {
        let time = NaiveTime::from_hms_opt(hour, 30, 0).unwrap();
        assert_eq!(hour12(hour), time.hour12());
    }
}

#[test]
fn time_shows_every_hour_of_the_day() {
    for hour in 0..24u32 {
        let now = NaiveDate::from_ymd_opt(2026, 2, 28).unwrap().and_hms_opt(hour, 5, 0).unwrap();
        let half = if hour < 12 { "AM" } else { "PM" };
        let shown = if hour % 12 == 0 { 12 } else { hour % 12 };
        assert_eq!(time(&now).full_text, format!("28/02/2026 {:02}:05 {}", shown, half));
    }
}

#[test]
fn cpu_load_up_to_a_hundred_takes_ten_characters() {
    for k in 0u32..=100_000 {
        let load = k as f32 / 1000.0;
        assert_eq!(cpu_usage(load.to_bits()).full_text.len(), 10, "load = {}", load);
    }
}

#[test]
fn storage_never_shows_more_in_use_than_there_is() {
    let mut total = 1u64;
    while total < 1 << 52 {
        for available in [0, 1, total / 3, total / 2, total - 1, total] {
            let lines = storage_info(&vec![disk(DEVICE, total, available)], DEVICE);
            let text = lines[0].full_text.strip_prefix(" : ").unwrap();
            let (used, whole) = text.split_once("G / ").unwrap();
            let used: f64 = used.parse().unwrap();
            let whole: f64 = whole.strip_suffix("G").unwrap().parse().unwrap();
            assert!(used <= whole, "total = {}, available = {}", total, available);
        }
        total = total * 5 + 7;
    }
}
