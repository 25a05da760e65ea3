use document_symbols::audio_devices::{
    audio_devices_of_kind, dropdown_label, get_current_device, AudioDeviceInfo, AudioDeviceKind, DeviceReport,
};

fn device(id: &str, name: &str) -> AudioDeviceInfo {
    AudioDeviceInfo { id: id.to_string(), name: name.to_string() }
}

#[test]
fn current_device_is_found_by_id() {
    let devices = vec![device("a", "Mic"), device("b", "Speakers"), device("b", "Other")];
    let id = "b".to_string();
    let current = get_current_device(Some(&id), &devices).expect("found");
    assert_eq!(current.name, "Speakers");
    let missing = "z".to_string();
    assert!(get_current_device(Some(&missing), &devices).is_none());
    assert!(get_current_device(None, &devices).is_none());
}

#[test]
fn device_text_shows_name_and_id() {
    assert_eq!(device("hw:1", "USB Mic").display_text(), "USB Mic (hw:1)");
}

#[test]
fn dropdown_label_falls_back_to_system_default() {
    assert_eq!(dropdown_label(&None), "System Default");
    assert_eq!(dropdown_label(&Some(device("a", "Mic"))), "Mic");
}

#[test]
fn devices_are_filtered_by_kind() {
    let report = |id: Option<&str>, name: Option<&str>, input: bool, output: bool| DeviceReport {
        id: id.map(|s| s.to_string()),
        name: name.map(|s| s.to_string()),
        supports_input: input,
        supports_output: output,
    };
    let reports = vec![
        report(Some("1"), Some("Mic"), true, false),
        report(Some("2"), Some("Speakers"), false, true),
        report(None, Some("Broken"), true, true),
        report(Some("4"), Some("Headset"), true, true),
    ];
    let inputs = audio_devices_of_kind(AudioDeviceKind::Input, &reports);
    let ids: Vec<&str> = inputs.iter().map(|d| d.id.as_str()).collect();
    assert_eq!(ids, vec!["1", "4"]);
    let outputs = audio_devices_of_kind(AudioDeviceKind::Output, &reports);
    let ids: Vec<&str> = outputs.iter().map(|d| d.id.as_str()).collect();
    assert_eq!(ids, vec!["2", "4"]);
}
