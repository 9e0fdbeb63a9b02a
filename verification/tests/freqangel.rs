use freqangel::cli::{expect_application, expect_word, fetch_may_write, taken_indices, Action, Args, CliError, Plan};
use freqangel::error::ParseFreqsError;
use freqangel::fetch::{userlist_link, userlist_link_from, LinkError, Pattern};
use freqangel::freq::{ChannelBandwidth, Freq, Notes, Squelch, Threshold};
use freqangel::freqs::{FileType, Freqs};
use freqangel::level::{compare_levels, level_finite, DEFAULT_SQUELCH_BITS, DEFAULT_THRESHOLD_BITS};
use freqangel::perseus::Clock;
use freqangel::schedule::{clock_secs, time_of_day_at, weekday_at, Days, TimeUtc};
use freqangel::text::IntErrorKind;
use std::cmp::Ordering;

fn parse_level(s: String) -> Option<u64> {
    s.parse::<f64>().ok().map(f64::to_bits)
}

fn format_level(bits: u64) -> String {
    f64::from_bits(bits).to_string()
}

fn midpoint_level(a: u64, b: u64) -> u64 {
    f64::from_bits(a).midpoint(f64::from_bits(b)).to_bits()
}

fn strings(v: &[&str]) -> Vec<String> {
    v.iter().map(|s| s.to_string()).collect()
}

fn entry(hertz: Option<u64>, station: &str) -> Freq {
    let mut f = Freq::new();
    f.freq_hertz = hertz;
    f.notes.station = Some(station.to_string());
    f
}

fn read_csv(text: &str) -> Result<Freqs, ParseFreqsError> {
    match Freqs::read(text, FileType::SdrAngelCsv, parse_level) {
        Some(r) => r,
        None => panic!("an SDRangel table is always readable"),
    }
}

// ---------------------------------------------------------------------------
// Days and times
// ---------------------------------------------------------------------------

#[test]
fn days_from_str_reads_a_range() {
    let days = Days::from_str("1-5").unwrap();
    assert_eq!(days, vec![Days { from: 1, to: Some(5) }]);
}

#[test]
fn days_from_str_reads_single_days_after_trimming() {
    let days = Days::from_str("  67 ").unwrap();
    assert_eq!(days, vec![Days { from: 6, to: None }, Days { from: 7, to: None }]);
}

#[test]
fn days_from_str_open_range_ends_on_seven() {
    let days = Days::from_str("3-").unwrap();
    assert_eq!(days, vec![Days { from: 3, to: Some(7) }]);
}

#[test]
fn days_from_str_mixes_ranges_and_days() {
    let days = Days::from_str("1-36").unwrap();
    assert_eq!(days, vec![Days { from: 1, to: Some(3) }, Days { from: 6, to: None }]);
}

#[test]
fn days_from_str_empty_is_no_day() {
    assert_eq!(Days::from_str("   ").unwrap(), vec![]);
}

#[test]
fn days_from_str_rejects_a_letter() {
    match Days::from_str(" 1x ") {
        Err(ParseFreqsError::ParseDay(IntErrorKind::InvalidDigit, s)) => assert_eq!(s, "1x"),
        other => panic!("unexpected {:?}", other),
    }
}

#[test]
fn days_from_str_rejects_a_dash_first() {
    match Days::from_str("-3") {
        Err(ParseFreqsError::ParseDay(IntErrorKind::InvalidDigit, s)) => assert_eq!(s, "-3"),
        other => panic!("unexpected {:?}", other),
    }
}

#[test]
fn days_to_string_writes_both_forms() {
    assert_eq!(Days { from: 1, to: Some(5) }.to_string(), "1-5");
    assert_eq!(Days { from: 6, to: None }.to_string(), "6");
    assert_eq!(Days { from: 12, to: Some(200) }.to_string(), "12-200");
}

#[test]
fn days_text_reads_back() {
    for from in 0u8..10 {
        for to in [None, Some(0u8), Some(4), Some(9)] {
            let d = Days { from, to };
            assert_eq!(Days::from_str(&d.to_string()).unwrap(), vec![d]);
        }
    }
}

#[test]
fn days_is_on_counts_days_from_monday() {
    let weekdays = Days { from: 1, to: Some(5) };
    assert!(weekdays.is_on(1));
    assert!(weekdays.is_on(3));
    assert!(weekdays.is_on(5));
    assert!(!weekdays.is_on(6));
    assert!(!weekdays.is_on(7));
    assert!(Days { from: 7, to: None }.is_on(7));
    assert!(Days { from: 0, to: None }.is_on(7));
    assert!(Days { from: 8, to: None }.is_on(1));
    assert!(!Days { from: 6, to: None }.is_on(5));
}

#[test]
fn days_today_and_now() {
    let today = Days::today();
    assert!((1..=7).contains(&today));
    assert!(Days { from: 1, to: Some(7) }.is_now());
}

#[test]
fn weekday_of_the_epoch_is_thursday() {
    assert_eq!(weekday_at(0), 5);
    assert_eq!(weekday_at(86400 * 4 - 1), 1);
    assert_eq!(weekday_at(86400 * 4), 2);
    assert_eq!(weekday_at(86400 * 3 + 100), 1);
}

#[test]
fn time_of_day_counts_hours_and_minutes() {
    assert_eq!(time_of_day_at(0), 0);
    assert_eq!(time_of_day_at(13 * 3600 + 7 * 60 + 59), 1307);
    assert_eq!(time_of_day_at(86400 + 23 * 3600 + 59 * 60), 2359);
}

#[test]
fn time_from_str_reads_a_range() {
    assert_eq!(TimeUtc::from_str("0600-1200").unwrap(), TimeUtc { from: 600, to: 1200 });
}

#[test]
fn time_from_str_reads_the_empty_range() {
    assert_eq!(TimeUtc::from_str("0.").unwrap(), TimeUtc { from: 0, to: 0 });
}

#[test]
fn time_from_str_rejects_two_dashes() {
    match TimeUtc::from_str("1-2-3") {
        Err(ParseFreqsError::TooManyDashes(s)) => assert_eq!(s, "1-2-3"),
        other => panic!("unexpected {:?}", other),
    }
    match TimeUtc::from_str("1200") {
        Err(ParseFreqsError::TooManyDashes(s)) => assert_eq!(s, "1200"),
        other => panic!("unexpected {:?}", other),
    }
}

#[test]
fn time_from_str_rejects_bad_ends() {
    match TimeUtc::from_str("a-1") {
        Err(ParseFreqsError::ParseTimeUtc(IntErrorKind::InvalidDigit, s)) => assert_eq!(s, "a-1"),
        other => panic!("unexpected {:?}", other),
    }
    match TimeUtc::from_str("-5") {
        Err(ParseFreqsError::ParseTimeUtc(IntErrorKind::Empty, s)) => assert_eq!(s, "-5"),
        other => panic!("unexpected {:?}", other),
    }
    match TimeUtc::from_str("1-70000") {
        Err(ParseFreqsError::ParseTimeUtc(IntErrorKind::PosOverflow, s)) => assert_eq!(s, "1-70000"),
        other => panic!("unexpected {:?}", other),
    }
}

#[test]
fn time_is_at_takes_the_start_not_the_end() {
    let t = TimeUtc { from: 600, to: 1200 };
    assert!(t.is_at(600));
    assert!(t.is_at(1159));
    assert!(!t.is_at(1200));
    assert!(!t.is_at(559));
    assert!(!TimeUtc { from: 0, to: 0 }.is_at(0));
}

#[test]
fn time_now_is_a_time_of_day() {
    assert!(TimeUtc::now() < 2400);
    assert!(TimeUtc { from: 0, to: 2400 }.is_now());
    assert!(!TimeUtc { from: 0, to: 0 }.is_now());
}

#[test]
fn time_to_string_wraps_at_a_day() {
    assert_eq!(TimeUtc { from: 600, to: 1200 }.to_string(), "600-1200");
    assert_eq!(TimeUtc { from: 2400, to: 2500 }.to_string(), "0-100");
}

#[test]
fn time_text_reads_back() {
    for (from, to) in [(0u16, 0u16), (600, 1200), (2359, 5), (1000, 2000)] {
        let t = TimeUtc { from, to };
        assert_eq!(TimeUtc::from_str(&t.to_string()).unwrap(), t);
    }
}

#[test]
fn clock_is_past_the_epoch() {
    assert!(clock_secs() > 1_600_000_000);
    let c = Clock::now();
    assert!((1..=7).contains(&c.weekday));
    assert!(c.time_of_day < 2400);
}

// ---------------------------------------------------------------------------
// Notes, entries, levels
// ---------------------------------------------------------------------------

#[test]
fn notes_text_with_every_part() {
    let notes = Notes {
        uti: Some("D".to_string()),
        station: Some("Radio".to_string()),
        language: Some("German".to_string()),
        location: Some("Berlin".to_string()),
    };
    assert_eq!(notes.to_string(), "[D] Radio (German) [Berlin]");
}

#[test]
fn notes_text_without_a_station() {
    assert_eq!(Notes::new().to_string(), "???");
    let notes = Notes { uti: None, station: None, language: Some("E".to_string()), location: None };
    assert_eq!(notes.to_string(), "??? (E)");
}

#[test]
fn notes_compare_by_text() {
    let a = Notes { uti: None, station: Some("???".to_string()), language: None, location: None };
    assert!(a == Notes::new());
    let b = Notes { uti: None, station: Some("B".to_string()), language: None, location: None };
    assert!(a != b);
    assert_eq!(a.partial_cmp(&b), Some(Ordering::Less));
    assert_eq!(b.partial_cmp(&a), Some(Ordering::Greater));
    assert_eq!(b.partial_cmp(&b.clone()), Some(Ordering::Equal));
}

#[test]
fn bandwidth_text_defaults_to_8000() {
    assert_eq!(ChannelBandwidth { hertz: None }.to_string(), "8000");
    assert_eq!(ChannelBandwidth { hertz: Some(10000) }.to_string(), "10000");
}

#[test]
fn default_levels_are_the_documented_decibels() {
    assert_eq!(DEFAULT_THRESHOLD_BITS, (-70.0f64).to_bits());
    assert_eq!(DEFAULT_SQUELCH_BITS, (-120.0f64).to_bits());
    assert_eq!(Threshold { decibel: None }.shown_level(), (-70.0f64).to_bits());
    assert_eq!(Squelch { decibel: None }.shown_level(), (-120.0f64).to_bits());
    assert_eq!(Squelch { decibel: Some(3.5f64.to_bits()) }.shown_level(), 3.5f64.to_bits());
}

#[test]
fn levels_compare_as_numbers() {
    let bits = |x: f64| x.to_bits();
    assert_eq!(compare_levels(bits(-70.0), bits(-120.0)), Some(Ordering::Greater));
    assert_eq!(compare_levels(bits(-120.0), bits(-70.0)), Some(Ordering::Less));
    assert_eq!(compare_levels(bits(0.0), bits(-0.0)), Some(Ordering::Equal));
    assert_eq!(compare_levels(bits(1.5), bits(f64::INFINITY)), Some(Ordering::Less));
    assert_eq!(compare_levels(bits(f64::NEG_INFINITY), bits(-1e300)), Some(Ordering::Less));
    assert_eq!(compare_levels(bits(f64::NAN), bits(1.0)), None);
    assert!(level_finite(bits(-3.0)));
    assert!(!level_finite(bits(f64::INFINITY)));
    assert!(!level_finite(bits(f64::NAN)));
}

#[test]
fn set_value_fills_once() {
    let mut slot: Option<u64> = None;
    assert!(Freq::set_value(&mut slot, 5).is_ok());
    assert_eq!(slot, Some(5));
    match Freq::set_value(&mut slot, 6) {
        Err(ParseFreqsError::AlreadyDefined) => {},
        other => panic!("unexpected {:?}", other),
    }
    assert_eq!(slot, Some(5));
}

#[test]
fn entries_compare_by_frequency_first() {
    let a = entry(Some(1000), "Z");
    let b = entry(Some(2000), "A");
    assert_eq!(a.partial_cmp(&b), Some(Ordering::Less));
    assert_eq!(b.cmp(&a), Ordering::Greater);
    assert!(a.lt(&b));
    let none = entry(None, "A");
    assert!(none.lt(&a));
    let c = entry(Some(1000), "A");
    assert!(c.lt(&a));
}

#[test]
fn entries_with_a_nan_level_do_not_compare() {
    let mut a = entry(Some(1000), "A");
    let mut b = entry(Some(1000), "A");
    a.threshold.decibel = Some(f64::NAN.to_bits());
    b.threshold.decibel = Some(1.0f64.to_bits());
    assert_eq!(a.partial_cmp(&b), None);
    assert_eq!(a.cmp(&b), Ordering::Equal);
    assert!(!a.lt(&b));
}

#[test]
fn merged_entry_takes_each_field_as_documented() {
    let mut b = entry(Some(1000), "A");
    b.enabled = Some(false);
    b.channel = Some("one".to_string());
    b.channel_bandwidth.hertz = Some(8000);
    b.threshold.decibel = Some((-60.0f64).to_bits());
    b.squelch.decibel = Some(f64::NAN.to_bits());
    let mut a = entry(Some(1000), "B");
    a.enabled = Some(true);
    a.channel = None;
    a.channel_bandwidth.hertz = Some(9001);
    a.threshold.decibel = Some((-80.0f64).to_bits());
    a.squelch.decibel = Some((-100.0f64).to_bits());
    let m = Freq::merged(b, a, &midpoint_level);
    assert_eq!(m.freq_hertz, Some(1000));
    assert_eq!(m.notes.station.as_deref(), Some("B"));
    assert_eq!(m.enabled, Some(true));
    assert_eq!(m.channel.as_deref(), Some("one"));
    assert_eq!(m.channel_bandwidth.hertz, Some(8500));
    assert_eq!(m.threshold.decibel, Some((-70.0f64).to_bits()));
    assert_eq!(m.squelch.decibel, Some((-100.0f64).to_bits()));
}

// ---------------------------------------------------------------------------
// SDRangel tables
// ---------------------------------------------------------------------------

const HEADER: &str = "Freq (Hz),Enable,Notes,Channel,Ch BW (Hz),TH (dB),Sq (dB)";

#[test]
fn sdrangel_read_takes_each_column() {
    let text = format!("{HEADER}\n603000,false,Radio A,ch1,9000,-60.5,-110\n\n 810000 , , Radio B ,,,,\n");
    let fs = read_csv(&text).unwrap();
    assert_eq!(fs.file_type, FileType::SdrAngelCsv);
    assert_eq!(fs.freqs.len(), 2);
    let a = &fs.freqs[0];
    assert_eq!(a.freq_hertz, Some(603000));
    assert_eq!(a.enabled, Some(false));
    assert_eq!(a.notes.station.as_deref(), Some("Radio A"));
    assert_eq!(a.channel.as_deref(), Some("ch1"));
    assert_eq!(a.channel_bandwidth.hertz, Some(9000));
    assert_eq!(a.threshold.decibel, Some((-60.5f64).to_bits()));
    assert_eq!(a.squelch.decibel, Some((-110.0f64).to_bits()));
    let b = &fs.freqs[1];
    assert_eq!(b.freq_hertz, Some(810000));
    assert_eq!(b.enabled, None);
    assert_eq!(b.notes.station.as_deref(), Some("Radio B"));
    assert_eq!(b.channel, None);
    assert_eq!(b.channel_bandwidth.hertz, None);
}

#[test]
fn sdrangel_reads_back_the_largest_frequency() {
    let fs = Freqs { file_type: FileType::SdrAngelCsv, freqs: vec![entry(Some(u64::MAX), "x")] };
    let back = read_csv(&fs.write(format_level)).unwrap();
    assert_eq!(back.freqs[0].freq_hertz, Some(u64::MAX));
    match read_csv("Freq (Hz)\n18446744073709551616\n") {
        Err(ParseFreqsError::ParseHertz(IntErrorKind::PosOverflow, s)) => {
            assert_eq!(s, "18446744073709551616")
        },
        other => panic!("unexpected {:?}", other.map(|f| f.freqs.len())),
    }
    assert_eq!(read_csv("Freq (Hz)\n+42\n").unwrap().freqs[0].freq_hertz, Some(42));
}

#[test]
fn sdrangel_read_follows_the_header_order() {
    let fs = read_csv("Notes , Freq (Hz)\r\nStation,1000\r\n").unwrap();
    assert_eq!(fs.freqs.len(), 1);
    assert_eq!(fs.freqs[0].freq_hertz, Some(1000));
    assert_eq!(fs.freqs[0].notes.station.as_deref(), Some("Station"));
}

#[test]
fn sdrangel_read_needs_a_header() {
    match read_csv("") {
        Err(ParseFreqsError::ExpectedCsvHeader) => {},
        other => panic!("unexpected {:?}", other.map(|f| f.freqs.len())),
    }
}

#[test]
fn sdrangel_read_rejects_an_unknown_title() {
    match read_csv("Freq (Hz),Colour\n1,red\n") {
        Err(ParseFreqsError::UnexpectedCsvHeader(s)) => assert_eq!(s, "Colour"),
        other => panic!("unexpected {:?}", other.map(|f| f.freqs.len())),
    }
}

#[test]
fn sdrangel_read_rejects_bad_fields() {
    match read_csv("Freq (Hz)\n12a\n") {
        Err(ParseFreqsError::ParseHertz(IntErrorKind::InvalidDigit, s)) => assert_eq!(s, "12a"),
        other => panic!("unexpected {:?}", other.map(|f| f.freqs.len())),
    }
    match read_csv("Enable\nyes\n") {
        Err(ParseFreqsError::ParseEnabled(s)) => assert_eq!(s, "yes"),
        other => panic!("unexpected {:?}", other.map(|f| f.freqs.len())),
    }
    match read_csv("TH (dB)\nloud\n") {
        Err(ParseFreqsError::ParseDecibel(s)) => assert_eq!(s, "loud"),
        other => panic!("unexpected {:?}", other.map(|f| f.freqs.len())),
    }
    match read_csv("Ch BW (Hz)\n5000000000\n") {
        Err(ParseFreqsError::ParseBandwidthHertz(IntErrorKind::PosOverflow, s)) => {
            assert_eq!(s, "5000000000")
        },
        other => panic!("unexpected {:?}", other.map(|f| f.freqs.len())),
    }
    match read_csv("Notes,Notes\na,b\n") {
        Err(ParseFreqsError::AlreadyDefined) => {},
        other => panic!("unexpected {:?}", other.map(|f| f.freqs.len())),
    }
}

#[test]
fn sdrangel_write_fills_in_defaults() {
    let mut a = entry(Some(603000), "Radio, \"A\"");
    a.channel = Some("c".to_string());
    a.threshold.decibel = Some((-60.5f64).to_bits());
    let b = Freq::new();
    let fs = Freqs { file_type: FileType::SdrAngelCsv, freqs: vec![a, b] };
    assert_eq!(
        fs.write(format_level),
        format!("{HEADER}\n603000,true,Radio_ _A_,c,8000,-60.5,-120\n,true,???,,8000,-70,-120\n")
    );
}

#[test]
fn sdrangel_write_then_read_gives_the_entries_back() {
    let mut a = entry(Some(603000), "Radio A");
    a.enabled = Some(false);
    a.channel = Some("c".to_string());
    a.channel_bandwidth.hertz = Some(9000);
    a.threshold.decibel = Some((-60.5f64).to_bits());
    a.squelch.decibel = Some((-99.0f64).to_bits());
    let fs = Freqs { file_type: FileType::SdrAngelCsv, freqs: vec![a.clone()] };
    let back = read_csv(&fs.write(format_level)).unwrap();
    assert_eq!(back.freqs.len(), 1);
    let r = &back.freqs[0];
    assert_eq!(r.freq_hertz, a.freq_hertz);
    assert_eq!(r.enabled, a.enabled);
    assert!(r.notes == a.notes);
    assert_eq!(r.channel, a.channel);
    assert_eq!(r.channel_bandwidth, a.channel_bandwidth);
    assert_eq!(r.threshold, a.threshold);
    assert_eq!(r.squelch, a.squelch);
}

#[test]
fn sdrangel_read_back_takes_the_notes_text_as_station() {
    let mut a = Freq::new();
    a.freq_hertz = Some(1000);
    a.notes = Notes {
        uti: Some("D".to_string()),
        station: Some(" R,x ".to_string()),
        language: Some("G".to_string()),
        location: None,
    };
    a.channel = Some("   ".to_string());
    let fs = Freqs { file_type: FileType::SdrAngelCsv, freqs: vec![a] };
    let back = read_csv(&fs.write(format_level)).unwrap();
    assert_eq!(back.freqs.len(), 1);
    let r = &back.freqs[0];
    assert_eq!(r.freq_hertz, Some(1000));
    assert_eq!(r.notes.uti, None);
    assert_eq!(r.notes.station.as_deref(), Some("[D]  R_x  (G)"));
    assert_eq!(r.notes.language, None);
    assert_eq!(r.enabled, Some(true));
    assert_eq!(r.channel, None);
    assert_eq!(r.channel_bandwidth.hertz, Some(8000));
    assert_eq!(r.threshold.decibel, Some((-70.0f64).to_bits()));
    assert_eq!(r.squelch.decibel, Some((-120.0f64).to_bits()));
}

#[test]
fn file_type_follows_the_extension() {
    assert_eq!(FileType::from_extension(None), Some(FileType::SdrAngelCsv));
    assert_eq!(FileType::from_extension(Some("csv")), Some(FileType::SdrAngelCsv));
    assert_eq!(FileType::from_extension(Some("txt")), None);
    assert_eq!(FileType::from_extension(Some("CSV")), None);
}

// ---------------------------------------------------------------------------
// Perseus lists
// ---------------------------------------------------------------------------

fn columns(cells: &[(&str, usize)]) -> String {
    let mut line = String::new();
    for (cell, width) in cells {
        line.push_str(&format!("{:<width$}", cell, width = *width));
    }
    line.trim_end().to_string()
}

const WIDTHS: [usize; 7] = [5, 4, 11, 10, 5, 7, 8];

fn row(cells: [&str; 7]) -> String {
    let pairs: Vec<(&str, usize)> = cells.iter().copied().zip(WIDTHS.iter().copied()).collect();
    columns(&pairs)
}

fn perseus_list(rows: &[[&str; 7]]) -> String {
    let mut text = String::from("Perseus user list\n");
    text.push_str(&row(["kHz", "ITU", "Station", "Time(UTC)", "Days", "Lang.", "Location"]));
    text.push('\n');
    let mut ruler = String::new();
    for w in WIDTHS {
        ruler.push('+');
        ruler.push_str(&"-".repeat(w - 1));
    }
    text.push_str(&ruler);
    text.push('\n');
    for r in rows {
        text.push_str(&row(*r));
        text.push('\n');
    }
    text
}

#[test]
fn perseus_read_keeps_what_is_on_now() {
    let text = perseus_list(&[
        ["603", "D", "Radio A", "0000-2400", "1-7", "German", "Berlin"],
        ["810", "G", "Radio B", "0000-0100", "1-7", "E", "London"],
        ["999", "F", "Radio C", "0000-2400", "6", "F", "Paris"],
        ["1000", "", "Radio D", "1100-1300", "34", "", ""],
    ]);
    let clock = Clock { weekday: 3, time_of_day: 1200 };
    let fs = Freqs::read_at(&text, FileType::PerseusTxt, clock, parse_level).unwrap();
    assert_eq!(fs.file_type, FileType::PerseusTxt);
    assert_eq!(fs.freqs.len(), 2);
    let a = &fs.freqs[0];
    assert_eq!(a.freq_hertz, Some(603000));
    assert_eq!(a.notes.uti.as_deref(), Some("D"));
    assert_eq!(a.notes.station.as_deref(), Some("Radio A"));
    assert_eq!(a.notes.language.as_deref(), Some("German"));
    assert_eq!(a.notes.location.as_deref(), Some("Berlin"));
    let d = &fs.freqs[1];
    assert_eq!(d.freq_hertz, Some(1000000));
    assert_eq!(d.notes.uti, None);
    assert_eq!(d.notes.to_string(), "Radio D");
}

#[test]
fn perseus_read_on_another_day() {
    let text = perseus_list(&[
        ["603", "D", "Radio A", "0000-2400", "1-5", "German", "Berlin"],
        ["999", "F", "Radio C", "0000-2400", "6", "F", "Paris"],
    ]);
    let clock = Clock { weekday: 6, time_of_day: 30 };
    let fs = Freqs::read_at(&text, FileType::PerseusTxt, clock, parse_level).unwrap();
    assert_eq!(fs.freqs.len(), 1);
    assert_eq!(fs.freqs[0].freq_hertz, Some(999000));
}

fn perseus_header_lines() -> String {
    let mut text = String::from("Perseus user list \u{2014} \u{fc}bersicht\n");
    text.push_str(&row(["kHz", "ITU", "Station", "Time(UTC)", "Days", "Lang.", "Location"]));
    text.push('\n');
    let mut ruler = String::new();
    for w in WIDTHS {
        ruler.push('+');
        ruler.push_str(&"-".repeat(w - 1));
    }
    text.push_str(&ruler);
    text.push('\n');
    text
}

#[test]
fn perseus_read_cuts_by_bytes_beyond_ascii() {
    let mut text = perseus_header_lines();
    text.push_str("603  D   R\u{e1}dio A   0000-2400 1-7  German Z\u{fc}rich\n");
    let clock = Clock { weekday: 3, time_of_day: 1200 };
    let fs = Freqs::read_at(&text, FileType::PerseusTxt, clock, parse_level).unwrap();
    assert_eq!(fs.freqs.len(), 1);
    let a = &fs.freqs[0];
    assert_eq!(a.freq_hertz, Some(603000));
    assert_eq!(a.notes.station.as_deref(), Some("R\u{e1}dio A"));
    assert_eq!(a.notes.language.as_deref(), Some("German"));
    assert_eq!(a.notes.location.as_deref(), Some("Z\u{fc}rich"));
    match Freqs::read(&text, FileType::PerseusTxt, parse_level) {
        Some(Ok(fs)) => assert_eq!(fs.freqs.len(), 1),
        Some(Err(e)) => panic!("unexpected {:?}", e),
        None => panic!("the list is readable"),
    }
}

#[test]
fn perseus_read_is_refused_where_a_cut_splits_a_character() {
    let mut text = perseus_header_lines();
    text.push_str(&format!("603  D   {}0000-2400 1-7  German Berlin\n", "\u{e9}".repeat(6)));
    assert!(Freqs::read(&text, FileType::PerseusTxt, parse_level).is_none());
}

#[test]
fn perseus_read_rejects_a_bad_time() {
    let text = perseus_list(&[["603", "D", "Radio A", "noon", "1-7", "German", "Berlin"]]);
    let clock = Clock { weekday: 3, time_of_day: 1200 };
    match Freqs::read_at(&text, FileType::PerseusTxt, clock, parse_level) {
        Err(ParseFreqsError::TooManyDashes(s)) => assert_eq!(s, "noon"),
        other => panic!("unexpected {:?}", other.map(|f| f.freqs.len())),
    }
}

#[test]
fn perseus_read_rejects_a_bad_frequency() {
    let text = perseus_list(&[["6o3", "D", "Radio A", "0000-2400", "1-7", "German", "Berlin"]]);
    let clock = Clock { weekday: 3, time_of_day: 1200 };
    match Freqs::read_at(&text, FileType::PerseusTxt, clock, parse_level) {
        Err(ParseFreqsError::ParseHertz(IntErrorKind::InvalidDigit, s)) => assert_eq!(s, "6o3"),
        other => panic!("unexpected {:?}", other.map(|f| f.freqs.len())),
    }
}

#[test]
fn perseus_read_rejects_an_unknown_title() {
    let text = "x\nkHz  Mode\n+----+----\n603  AM\n";
    let clock = Clock { weekday: 3, time_of_day: 1200 };
    match Freqs::read_at(text, FileType::PerseusTxt, clock, parse_level) {
        Err(ParseFreqsError::UnexpectedCsvHeader(s)) => assert_eq!(s, "Mode"),
        other => panic!("unexpected {:?}", other.map(|f| f.freqs.len())),
    }
}

#[test]
fn perseus_read_needs_a_line() {
    let clock = Clock { weekday: 3, time_of_day: 1200 };
    match Freqs::read_at("", FileType::PerseusTxt, clock, parse_level) {
        Err(ParseFreqsError::ExpectedCsvHeader) => {},
        other => panic!("unexpected {:?}", other.map(|f| f.freqs.len())),
    }
}

#[test]
fn perseus_read_now_reads_a_list_always_on() {
    let text = perseus_list(&[["603", "D", "Radio A", "0000-2400", "1-7", "German", "Berlin"]]);
    match Freqs::read(&text, FileType::PerseusTxt, parse_level) {
        Some(Ok(fs)) => {
            assert_eq!(fs.freqs.len(), 1);
            assert_eq!(fs.freqs[0].freq_hertz, Some(603000));
        },
        Some(Err(e)) => panic!("unexpected {:?}", e),
        None => panic!("the list is readable"),
    }
}

// ---------------------------------------------------------------------------
// Sorting, merging duplicates, merging lists
// ---------------------------------------------------------------------------

fn hertz(fs: &Freqs) -> Vec<Option<u64>> {
    fs.freqs.iter().map(|f| f.freq_hertz).collect()
}

#[test]
fn sort_orders_by_frequency() {
    let mut fs = Freqs {
        file_type: FileType::SdrAngelCsv,
        freqs: vec![entry(Some(3), "c"), entry(Some(1), "a"), entry(None, "n"), entry(Some(2), "b")],
    };
    fs.sort();
    assert_eq!(hertz(&fs), vec![None, Some(1), Some(2), Some(3)]);
    assert_eq!(fs.file_type, FileType::SdrAngelCsv);
}

#[test]
fn sort_orders_by_notes_then_by_the_other_fields() {
    let mut x = entry(Some(5), "B");
    x.threshold.decibel = Some(f64::NAN.to_bits());
    let y = entry(Some(5), "B");
    let z = entry(Some(5), "A");
    let mut fs = Freqs { file_type: FileType::SdrAngelCsv, freqs: vec![x, y, z] };
    fs.sort();
    let stations: Vec<&str> = fs.freqs.iter().map(|f| f.notes.station.as_deref().unwrap()).collect();
    assert_eq!(stations, vec!["A", "B", "B"]);
    assert_eq!(fs.freqs[1].threshold.decibel, None);
    assert_eq!(fs.freqs[2].threshold.decibel, Some(f64::NAN.to_bits()));
}

#[test]
fn sort_keeps_every_entry() {
    let input = vec![7u64, 3, 9, 3, 1, 7, 2];
    let mut fs = Freqs {
        file_type: FileType::SdrAngelCsv,
        freqs: input.iter().map(|&h| entry(Some(h), "s")).collect(),
    };
    fs.sort();
    let mut expected: Vec<Option<u64>> = input.iter().map(|&h| Some(h)).collect();
    expected.sort();
    assert_eq!(hertz(&fs), expected);
}

#[test]
fn dedup_merges_the_same_station() {
    let mut a = entry(Some(1000), "Radio");
    a.channel_bandwidth.hertz = Some(6000);
    let mut b = entry(Some(1000), "Radio ");
    b.channel_bandwidth.hertz = Some(10000);
    let c = entry(Some(1000), "Other");
    let d = entry(Some(500), "Radio");
    let mut fs = Freqs { file_type: FileType::SdrAngelCsv, freqs: vec![b, c, a, d] };
    fs.dedup(midpoint_level);
    assert_eq!(hertz(&fs), vec![Some(500), Some(1000), Some(1000)]);
    let stations: Vec<&str> = fs.freqs.iter().map(|f| f.notes.station.as_deref().unwrap()).collect();
    assert_eq!(stations, vec!["Radio", "Other", "Radio "]);
    assert_eq!(fs.freqs[2].channel_bandwidth.hertz, Some(8000));
}

#[test]
fn dedup_twice_is_dedup_once() {
    let mut a = entry(Some(1000), "Radio");
    a.channel_bandwidth.hertz = Some(6000);
    a.threshold.decibel = Some((-60.0f64).to_bits());
    let mut b = entry(Some(1000), "Radio ");
    b.channel_bandwidth.hertz = Some(10000);
    b.enabled = Some(false);
    let c = entry(Some(1000), "Other");
    let d = entry(Some(500), "Radio");
    let e = entry(None, "none");
    let mut fs = Freqs { file_type: FileType::SdrAngelCsv, freqs: vec![b, e, c, a, d] };
    fs.dedup(midpoint_level);
    let once = fs.write(format_level);
    fs.dedup(midpoint_level);
    assert_eq!(fs.write(format_level), once);
}

#[test]
fn dedup_merges_only_neighbours() {
    let a = entry(Some(1000), "Radio");
    let b = entry(Some(1000), " Radio");
    let c = entry(Some(1000), "Other");
    let mut fs = Freqs { file_type: FileType::SdrAngelCsv, freqs: vec![a, b, c] };
    fs.dedup(midpoint_level);
    let stations: Vec<&str> = fs.freqs.iter().map(|f| f.notes.station.as_deref().unwrap()).collect();
    assert_eq!(stations, vec![" Radio", "Other", "Radio"]);
}

#[test]
fn dedup_treats_commas_and_quotes_as_underscores() {
    let a = entry(Some(1000), "A,B");
    let b = entry(Some(1000), "A\"B");
    let mut fs = Freqs { file_type: FileType::SdrAngelCsv, freqs: vec![a, b] };
    fs.dedup(midpoint_level);
    assert_eq!(fs.freqs.len(), 1);
}

#[test]
fn dedup_drops_later_entries_without_a_frequency() {
    let mut fs = Freqs {
        file_type: FileType::SdrAngelCsv,
        freqs: vec![entry(None, "a"), entry(None, "b"), entry(Some(1), "c"), entry(None, "d")],
    };
    fs.dedup(midpoint_level);
    assert_eq!(hertz(&fs), vec![None, Some(1)]);
    assert_eq!(fs.freqs[0].notes.station.as_deref(), Some("a"));
}

#[test]
fn dedup_of_nothing_is_nothing() {
    let mut fs = Freqs { file_type: FileType::PerseusTxt, freqs: vec![] };
    fs.dedup(midpoint_level);
    assert!(fs.freqs.is_empty());
    assert_eq!(fs.file_type, FileType::PerseusTxt);
}

#[test]
fn dedup_leaves_no_neighbouring_duplicates_and_keeps_frequencies() {
    let input = [5u64, 1, 5, 3, 1, 1, 9, 3];
    let mut fs = Freqs {
        file_type: FileType::SdrAngelCsv,
        freqs: input.iter().map(|&h| entry(Some(h), "same")).collect(),
    };
    fs.dedup(midpoint_level);
    assert_eq!(hertz(&fs), vec![Some(1), Some(3), Some(5), Some(9)]);
}

#[test]
fn merge_takes_both_lists_and_merges_duplicates() {
    let mut into = Freqs {
        file_type: FileType::SdrAngelCsv,
        freqs: vec![entry(Some(900), "X"), entry(Some(100), "Y")],
    };
    let mut other_entry = entry(Some(900), "X");
    other_entry.enabled = Some(true);
    let from = Freqs {
        file_type: FileType::PerseusTxt,
        freqs: vec![other_entry, entry(Some(500), "Z")],
    };
    into.merge(from, midpoint_level);
    assert_eq!(into.file_type, FileType::SdrAngelCsv);
    assert_eq!(hertz(&into), vec![Some(100), Some(500), Some(900)]);
    assert_eq!(into.freqs[2].enabled, Some(true));
}

#[test]
fn perseus_last_line_keeps_its_carriage_return() {
    let clock = Clock { weekday: 3, time_of_day: 1200 };
    match Freqs::read_at("x\nkHz  ABCDEF\n+----+----\r", FileType::PerseusTxt, clock, parse_level) {
        Err(ParseFreqsError::UnexpectedCsvHeader(s)) => assert_eq!(s, "ABCDEF"),
        other => panic!("unexpected {:?}", other.map(|f| f.freqs.len())),
    }
    match Freqs::read_at("x\nkHz  ABCDEF\n+----+----\r\n", FileType::PerseusTxt, clock, parse_level) {
        Err(ParseFreqsError::UnexpectedCsvHeader(s)) => assert_eq!(s, "ABCDE"),
        other => panic!("unexpected {:?}", other.map(|f| f.freqs.len())),
    }
}

#[test]
fn sort_keeps_equal_entries_in_order() {
    let mut x = entry(Some(7), "R");
    x.notes.uti = Some("D".to_string());
    let y = entry(Some(7), "[D] R");
    let z = entry(Some(3), "Z");
    let mut fs = Freqs { file_type: FileType::SdrAngelCsv, freqs: vec![x.clone(), y.clone(), z.clone()] };
    fs.sort();
    assert_eq!(fs.freqs[1].notes.uti.as_deref(), Some("D"));
    assert_eq!(fs.freqs[2].notes.uti, None);
    let mut fs = Freqs { file_type: FileType::SdrAngelCsv, freqs: vec![y, z, x] };
    fs.sort();
    assert_eq!(fs.freqs[1].notes.uti, None);
    assert_eq!(fs.freqs[2].notes.uti.as_deref(), Some("D"));
}

#[test]
fn merge_all_merges_each_list_in_turn() {
    let mut into = Freqs { file_type: FileType::SdrAngelCsv, freqs: vec![entry(Some(900), "X")] };
    let mut x2 = entry(Some(900), "X");
    x2.enabled = Some(false);
    let one = Freqs { file_type: FileType::SdrAngelCsv, freqs: vec![entry(Some(100), "Y"), x2] };
    let two = Freqs { file_type: FileType::SdrAngelCsv, freqs: vec![entry(Some(500), "Z")] };
    into.merge_all(vec![one, two], midpoint_level);
    assert_eq!(hertz(&into), vec![Some(100), Some(500), Some(900)]);
    assert_eq!(into.freqs[2].enabled, Some(false));
    let mut empty = Freqs { file_type: FileType::SdrAngelCsv, freqs: vec![entry(Some(1), "a")] };
    empty.merge_all(vec![], midpoint_level);
    assert_eq!(hertz(&empty), vec![Some(1)]);
}

#[test]
fn taken_indices_run_from_take_on() {
    assert_eq!(taken_indices(3, Some(1)), vec![1, 2]);
    assert_eq!(taken_indices(3, Some(0)), vec![0, 1, 2]);
    assert_eq!(taken_indices(3, None), Vec::<usize>::new());
    assert_eq!(taken_indices(2, Some(5)), Vec::<usize>::new());
}

// ---------------------------------------------------------------------------
// The command line
// ---------------------------------------------------------------------------

#[test]
fn action_from_str_names_the_subcommands() {
    assert_eq!(Action::from_str("sort").unwrap(), Action::Sort);
    assert_eq!(Action::from_str("dedup").unwrap(), Action::Dedup);
    assert_eq!(Action::from_str("merge").unwrap(), Action::Merge);
    assert_eq!(Action::from_str("fetch").unwrap(), Action::Fetch);
    assert_eq!(Action::from_str("Sort").unwrap_err().arg, "Sort");
}

#[test]
fn action_expect_takes_one_argument() {
    let mut args = Args::new(strings(&["merge", "a"]));
    assert_eq!(Action::expect(&mut args).unwrap(), Action::Merge);
    assert!(matches!(args.peek().map(|s| s.as_str()), Some("a")));
    let mut empty = Args::new(vec![]);
    assert!(matches!(Action::expect(&mut empty), Err(CliError::ExpectedAction)));
    let mut bad = Args::new(strings(&["rm"]));
    match Action::expect(&mut bad) {
        Err(CliError::ParseAction(e)) => assert_eq!(e.arg, "rm"),
        other => panic!("unexpected {:?}", other),
    }
    assert!(bad.is_empty());
}

#[test]
fn expect_application_and_word() {
    let mut args = Args::new(strings(&["freqangel", "into", "x"]));
    assert!(expect_application(&mut args).is_ok());
    assert!(args.next_is("into"));
    assert!(expect_word(&mut args, "into").is_ok());
    match expect_word(&mut args, "into") {
        Err(CliError::WordsDiffer(a, w)) => {
            assert_eq!(a, "x");
            assert_eq!(w, "into");
        },
        other => panic!("unexpected {:?}", other),
    }
    match expect_word(&mut args, "take") {
        Err(CliError::ExpectedWord(w)) => assert_eq!(w, "take"),
        other => panic!("unexpected {:?}", other),
    }
    assert!(matches!(expect_application(&mut args), Err(CliError::ExpectedApplication)));
    assert_eq!(args.next(), None);
}

fn plan(args: &[&str]) -> Plan {
    Plan::from_args(strings(args))
}

#[test]
fn plan_needs_a_program_and_a_subcommand() {
    assert!(matches!(plan(&[]), Plan::Fail(CliError::ExpectedApplication)));
    assert!(matches!(plan(&["freqangel"]), Plan::Fail(CliError::ExpectedAction)));
    match plan(&["freqangel", "list"]) {
        Plan::Fail(CliError::ParseAction(e)) => assert_eq!(e.arg, "list"),
        other => panic!("unexpected {:?}", other),
    }
}

#[test]
fn plan_sort_and_dedup_take_every_path() {
    match plan(&["freqangel", "sort", "am_frequencies.csv"]) {
        Plan::Sort(paths) => assert_eq!(paths, strings(&["am_frequencies.csv"])),
        other => panic!("unexpected {:?}", other),
    }
    match plan(&["freqangel", "dedup", "a.csv", "b.csv", "into"]) {
        Plan::Dedup(paths) => assert_eq!(paths, strings(&["a.csv", "b.csv", "into"])),
        other => panic!("unexpected {:?}", other),
    }
    assert!(matches!(plan(&["freqangel", "sort"]), Plan::Fail(CliError::ExpectedFilePath)));
    assert!(matches!(plan(&["freqangel", "dedup"]), Plan::Fail(CliError::ExpectedFilePath)));
}

#[test]
fn plan_merge_as_the_readme_shows() {
    let p = plan(&[
        "freqangel",
        "merge",
        "alternate_frequency_list.csv",
        "take",
        "temporary_frequency_list.csv",
        "into",
        "am_frequencies.csv",
    ]);
    match p {
        Plan::Merge { sources, taken_from, into } => {
            assert_eq!(sources, strings(&["alternate_frequency_list.csv", "temporary_frequency_list.csv"]));
            assert_eq!(taken_from, Some(1));
            assert_eq!(into.unwrap(), "am_frequencies.csv");
        },
        other => panic!("unexpected {:?}", other),
    }
}

#[test]
fn plan_merge_taking_every_source() {
    match plan(&["freqangel", "merge", "take", "a", "b", "into", "c", "ignored"]) {
        Plan::Merge { sources, taken_from, into } => {
            assert_eq!(sources, strings(&["a", "b"]));
            assert_eq!(taken_from, Some(0));
            assert_eq!(into.unwrap(), "c");
        },
        other => panic!("unexpected {:?}", other),
    }
}

#[test]
fn plan_merge_without_take_deletes_nothing() {
    match plan(&["freqangel", "merge", "a", "into", "c"]) {
        Plan::Merge { sources, taken_from, into } => {
            assert_eq!(sources, strings(&["a"]));
            assert_eq!(taken_from, None);
            assert_eq!(into.unwrap(), "c");
        },
        other => panic!("unexpected {:?}", other),
    }
}

#[test]
fn plan_merge_errors() {
    match plan(&["freqangel", "merge", "a", "b"]) {
        Plan::Merge { sources, into: Err(CliError::ExpectedWord(w)), .. } => {
            assert_eq!(sources, strings(&["a", "b"]));
            assert_eq!(w, "into");
        },
        other => panic!("unexpected {:?}", other),
    }
    match plan(&["freqangel", "merge", "take", "a", "take", "b", "into", "c"]) {
        Plan::Merge { sources, into: Err(CliError::ExpectedFilePath), .. } => {
            assert_eq!(sources, strings(&["a"]));
        },
        other => panic!("unexpected {:?}", other),
    }
    match plan(&["freqangel", "merge", "a", "into"]) {
        Plan::Merge { sources, into: Err(CliError::ExpectedFilePath), .. } => {
            assert_eq!(sources, strings(&["a"]));
        },
        other => panic!("unexpected {:?}", other),
    }
    match plan(&["freqangel", "merge"]) {
        Plan::Merge { sources, into: Err(CliError::ExpectedFilePath), .. } => assert!(sources.is_empty()),
        other => panic!("unexpected {:?}", other),
    }
    match plan(&["freqangel", "merge", "take"]) {
        Plan::Merge { sources, taken_from, into: Err(CliError::ExpectedFilePath) } => {
            assert!(sources.is_empty());
            assert_eq!(taken_from, Some(0));
        },
        other => panic!("unexpected {:?}", other),
    }
    match plan(&["freqangel", "merge", "a", "take"]) {
        Plan::Merge { sources, into: Err(CliError::ExpectedFilePath), .. } => {
            assert_eq!(sources, strings(&["a"]));
        },
        other => panic!("unexpected {:?}", other),
    }
}

#[test]
fn plan_merge_first_source_may_be_named_into() {
    match plan(&["freqangel", "merge", "into", "into", "c"]) {
        Plan::Merge { sources, taken_from, into } => {
            assert_eq!(sources, strings(&["into"]));
            assert_eq!(taken_from, None);
            assert_eq!(into.unwrap(), "c");
        },
        other => panic!("unexpected {:?}", other),
    }
}

#[test]
fn plan_fetch_as_the_readme_shows() {
    match plan(&["freqangel", "fetch", "into", "userlist1.csv"]) {
        Plan::Fetch { into_word, path } => {
            assert!(into_word);
            assert_eq!(path, "userlist1.csv");
        },
        other => panic!("unexpected {:?}", other),
    }
    match plan(&["freqangel", "fetch", "target/userlist1.csv"]) {
        Plan::Fetch { into_word, path } => {
            assert!(!into_word);
            assert_eq!(path, "target/userlist1.csv");
        },
        other => panic!("unexpected {:?}", other),
    }
    assert!(matches!(plan(&["freqangel", "fetch"]), Plan::Fail(CliError::ExpectedFilePath)));
    assert!(matches!(plan(&["freqangel", "fetch", "into"]), Plan::Fail(CliError::ExpectedFilePath)));
}

#[test]
fn fetch_overwrites_only_after_into() {
    assert!(fetch_may_write(true, true).is_ok());
    assert!(fetch_may_write(true, false).is_ok());
    assert!(fetch_may_write(false, false).is_ok());
    match fetch_may_write(false, true) {
        Err(CliError::ExpectedWord(w)) => assert_eq!(w, "into"),
        other => panic!("unexpected {:?}", other),
    }
}

// ---------------------------------------------------------------------------
// Finding the user list
// ---------------------------------------------------------------------------

#[test]
fn userlist_link_finds_the_address() {
    let page = "<html><a href=\"https://www1.m2.mediacat.ne.jp/binews/ab/cd/userlist1.txt\">list</a>\
                <a href=\"https://www1.m2.mediacat.ne.jp/binews/ef/gh/userlist1.txt\">old</a></html>";
    assert_eq!(
        userlist_link(page).unwrap(),
        "https://www1.m2.mediacat.ne.jp/binews/ab/cd/userlist1.txt"
    );
}

#[test]
fn userlist_link_needs_a_link() {
    let page = "<a href=\"https://www1.m2.mediacat.ne.jp/binews/AB/cd/userlist1.txt\">x</a>";
    assert!(matches!(userlist_link(page), Err(LinkError::FindWebData)));
    assert!(matches!(userlist_link(""), Err(LinkError::FindWebData)));
}

#[test]
fn userlist_link_from_a_search() {
    assert_eq!(userlist_link_from(Some("u".to_string())).unwrap(), "u");
    assert!(matches!(userlist_link_from(None), Err(LinkError::FindWebData)));
}

#[test]
fn pattern_compiles_and_finds() {
    assert!(Pattern::new("a(").is_err());
    let p = Pattern::new("[0-9]+").unwrap();
    assert_eq!(p.find("abc 123 45").as_deref(), Some("123"));
    assert_eq!(p.find("none"), None);
}
