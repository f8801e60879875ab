use sysmon::openrgb::{Controller, Zone};
use sysmon::selection::select_controller;

#[test]
fn selector_matches_name_vendor_description_location_or_id() {
    let controllers = vec![
        Controller {
            id: 0,
            name: "Small GPU".to_string(),
            vendor: "Vendor".to_string(),
            description: "Graphics card".to_string(),
            location: "PCI".to_string(),
            active_mode: 0,
            modes: Vec::new(),
            led_count: 32,
            zones: vec![Zone {
                index: 0,
                name: "GPU".to_string(),
                start: 0,
                count: 32,
            }],
        },
        Controller {
            id: 1,
            name: "Big Board".to_string(),
            vendor: "BoardCo".to_string(),
            description: "Motherboard".to_string(),
            location: "HID".to_string(),
            active_mode: 0,
            modes: Vec::new(),
            led_count: 265,
            zones: vec![Zone {
                index: 0,
                name: "Addressable Header".to_string(),
                start: 0,
                count: 80,
            }],
        },
    ];

    assert_eq!(
        select_controller(controllers.clone(), Some("1"))
            .unwrap()
            .name,
        "Big Board"
    );
    assert_eq!(
        select_controller(controllers.clone(), Some("boardco"))
            .unwrap()
            .name,
        "Big Board"
    );
    assert_eq!(
        select_controller(controllers, None).unwrap().name,
        "Big Board"
    );
}
