use backlight::device::{Backlight, Backlights};
use backlight::error::BacklightError;

fn device(name: &str, brightness: &str, max: &str) -> Backlight {
    Backlight::from_contents(name.to_string(), brightness, max, Some(brightness)).unwrap()
}

#[test]
fn from_contents_reads_every_attribute() {
    let bl = Backlight::from_contents("acpi_video0".to_string(), "50\n", "100\n", Some("48\n"))
        .unwrap();
    assert_eq!(bl.name, "acpi_video0");
    assert_eq!(bl.brightness, 50);
    assert_eq!(bl.max_brightness, 100);
    assert_eq!(bl.actual_brightness, Some(48));
}

#[test]
fn from_contents_without_actual_brightness() {
    let bl = Backlight::from_contents("panel".to_string(), "3", "7", None).unwrap();
    assert_eq!(bl.brightness, 3);
    assert_eq!(bl.max_brightness, 7);
    assert_eq!(bl.actual_brightness, None);
}

#[test]
fn from_contents_first_failure_decides() {
    let r = Backlight::from_contents("panel".to_string(), "high", "", Some("1"));
    assert_eq!(r.unwrap_err(), BacklightError::Unparsable);
    let r = Backlight::from_contents("panel".to_string(), "1", "  ", Some("x"));
    assert_eq!(r.unwrap_err(), BacklightError::Empty);
    let r = Backlight::from_contents("panel".to_string(), "1", "2", Some("x"));
    assert_eq!(r.unwrap_err(), BacklightError::Unparsable);
}

#[test]
fn refresh_changes_brightness_only() {
    let mut bl = Backlight::from_contents("panel".to_string(), "10", "100", Some("9")).unwrap();
    assert_eq!(bl.refresh_brightness("75\n"), Ok(()));
    assert_eq!(bl.brightness, 75);
    assert_eq!(bl.actual_brightness, Some(9));
    assert_eq!(bl.max_brightness, 100);
    assert_eq!(bl.name, "panel");
}

#[test]
fn refresh_failure_keeps_device() {
    let mut bl = device("panel", "10", "100");
    assert_eq!(bl.refresh_brightness(""), Err(BacklightError::Empty));
    assert_eq!(bl.brightness, 10);
}

#[test]
fn insert_keeps_order_and_replaces_same_name() {
    let mut bls = Backlights::new();
    bls.insert(device("a", "1", "10"));
    bls.insert(device("b", "2", "10"));
    bls.insert(device("a", "3", "10"));
    assert_eq!(bls.names(), vec!["a".to_string(), "b".to_string()]);
    let a = bls.select("a").unwrap();
    assert_eq!(a.brightness, 3);
}

#[test]
fn default_wins_wherever_it_stands() {
    let mut bls = Backlights::new();
    bls.insert(device("acpi_video0", "1", "10"));
    bls.insert(device("intel_backlight", "2", "10"));
    bls.insert(device("default", "3", "10"));
    let bl = bls.default_backlight().unwrap();
    assert_eq!(bl.name, "default");
    assert_eq!(bl.brightness, 3);
}

#[test]
fn without_default_the_least_name_is_chosen() {
    let mut bls = Backlights::new();
    bls.insert(device("intel_backlight", "2", "10"));
    bls.insert(device("acpi_video0", "1", "10"));
    let bl = bls.default_backlight().unwrap();
    assert_eq!(bl.name, "acpi_video0");
}

#[test]
fn default_choice_ignores_order_found() {
    let names = ["panel", "intel_backlight", "acpi_video10", "acpi_video1", "Zeta"];
    let mut forward = Backlights::new();
    for n in names.iter() {
        forward.insert(device(n, "1", "10"));
    }
    let mut backward = Backlights::new();
    for n in names.iter().rev() {
        backward.insert(device(n, "1", "10"));
    }
    assert_eq!(forward.default_backlight().unwrap().name, "Zeta");
    assert_eq!(backward.default_backlight().unwrap().name, "Zeta");
}

#[test]
fn prefix_name_comes_first() {
    let mut bls = Backlights::new();
    bls.insert(device("acpi_video10", "1", "10"));
    bls.insert(device("acpi_video1", "2", "10"));
    let bl = bls.default_backlight().unwrap();
    assert_eq!(bl.name, "acpi_video1");
    assert_eq!(bl.brightness, 2);
}

#[test]
fn no_devices_is_an_error() {
    let bls = Backlights::new();
    assert_eq!(bls.default_backlight().unwrap_err(), BacklightError::NoBacklights);
}

#[test]
fn default_device_is_resolved_and_shown() {
    let mut bls = Backlights::new();
    bls.insert(device("intel_backlight", "700", "1500"));
    bls.insert(
        Backlight::from_contents("default".to_string(), "50\n", "100\n", Some("50\n")).unwrap(),
    );
    let bl = bls.default_backlight().unwrap();
    assert_eq!(bl.name, "default");
    assert_eq!(bl.brightness, 50);
    assert_eq!(bl.max_brightness, 100);
}

#[test]
fn unknown_name_is_not_found() {
    let mut bls = Backlights::new();
    bls.insert(device("intel_backlight", "700", "1500"));
    bls.insert(device("default", "50", "100"));
    assert_eq!(bls.names().len(), 2);
    assert_eq!(bls.select("nonexistent").unwrap_err(), BacklightError::NotFound);
}

#[test]
fn known_name_is_selected() {
    let mut bls = Backlights::new();
    bls.insert(device("intel_backlight", "700", "1500"));
    bls.insert(device("default", "50", "100"));
    let bl = bls.select("intel_backlight").unwrap();
    assert_eq!(bl.brightness, 700);
    assert_eq!(bl.max_brightness, 1500);
}

#[test]
fn default_device_text() {
    let bl = Backlight::from_contents("default".to_string(), "50\n", "100\n", Some("50\n"))
        .unwrap();
    assert_eq!(
        bl.describe(),
        "Backlight Name: \"default\"\n    Brightness: 50\n    Actual Brightness: 50\n    Max Brightness: 100\n"
    );
}

#[test]
fn text_without_actual_brightness() {
    let bl = Backlight::from_contents("panel".to_string(), "0", "4095", None).unwrap();
    assert_eq!(
        bl.describe(),
        "Backlight Name: \"panel\"\n    Brightness: 0\n    Max Brightness: 4095\n"
    );
}

#[test]
fn text_escapes_the_name() {
    let bl = Backlight::from_contents("a\"b\\c".to_string(), "1", "2", None).unwrap();
    assert!(bl.describe().starts_with("Backlight Name: \"a\\\"b\\\\c\"\n"));
}
