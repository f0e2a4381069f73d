use sc_keymap_rs::{
    JoystickButtonsMapping, PhysicalButton, PhysicalButtonKind, ShiftKind, VirtualButton,
    VirtualButtonKind, VirtualButtonOrSpecial, VkbReportError,
};

fn get_sample_mappings() -> JoystickButtonsMapping {
    // for simplicity both L and R sticks use the same config
    let config = JoystickButtonsMapping {
        virtual_to_parents: vec![
            // Most basic case: a standard button, no user-injected data (so user_desc is empty)
            (
                44,
                vec![PhysicalButton::new(
                    27,
                    PhysicalButtonKind::Momentary {
                        shift: Some(ShiftKind::Shift12 {
                            button_id_shift1: 44,
                            button_id_shift2: 82,
                        }),
                    },
                    "(A4 left)".to_string(),
                    "- Button with momentary action".to_string(),
                    "".to_string(),
                )],
            ),
            // More advanced case: the key (108) is NOT found in PhysicalButtonKind
            // Here we have both "info" and "user_desc" -> "user_desc" is ignored
            (
                108,
                vec![PhysicalButton::new(
                    12,
                    PhysicalButtonKind::Momentary {
                        shift: Some(ShiftKind::Shift12 {
                            button_id_shift1: 100,
                            button_id_shift2: 101,
                        }),
                    },
                    "(A2)".to_string(),
                    "- Button with momentary action".to_string(),
                    "Thumb red button".to_string(),
                )],
            ),
            // Special case: 8-ways POV stick
            // It is a toggle in VKB config so here we have NO link from physical
            // to physical button: physical button 72's parent == physical button 72
            // Here we SKIP "info" and only map using "user_desc"
            (
                72,
                vec![PhysicalButton::new(
                    72,
                    PhysicalButtonKind::Momentary {
                        shift: Some(ShiftKind::Shift2 {
                            button_id_shift2: 80,
                        }),
                    },
                    "".to_string(),
                    "- Button with momentary action".to_string(),
                    "A1 8-way ministick NW".to_string(),
                )],
            ),
        ],
        physical_to_children: vec![
            (
                27,
                vec![VirtualButton {
                    id: 44,
                    kind: VirtualButtonKind::Momentary(None),
                }],
            ),
            (
                12,
                vec![VirtualButton {
                    id: 108,
                    kind: VirtualButtonKind::Momentary(None),
                }],
            ),
            (
                72,
                vec![VirtualButton {
                    id: 72,
                    kind: VirtualButtonKind::Momentary(None),
                }],
            ),
        ],
        special_buttons: vec![],
    };

    config
}

#[test]
fn test_get_virtual_button_id_from_info_or_user_desc_simple() {
    let sample_mappings = get_sample_mappings();

    assert_eq!(
        sample_mappings
            .get_virtual_button_ids_from_info_or_user_desc("(A4 left)")
            .unwrap(),
        vec![VirtualButtonOrSpecial::Virtual(VirtualButton {
            id: 44,
            kind: VirtualButtonKind::Momentary(None)
        })]
    );
}

#[test]
fn test_get_virtual_button_id_from_info_or_user_desc_advanced() {
    let sample_mappings = get_sample_mappings();

    assert_eq!(
        sample_mappings
            .get_virtual_button_ids_from_info_or_user_desc("(A2)")
            .unwrap(),
        vec![VirtualButtonOrSpecial::Virtual(VirtualButton {
            id: 108,
            kind: VirtualButtonKind::Momentary(None)
        })]
    );
}

#[test]
fn test_get_virtual_button_id_from_info_or_user_desc_special() {
    let sample_mappings = get_sample_mappings();

    assert_eq!(
        sample_mappings
            .get_virtual_button_ids_from_info_or_user_desc("A1 8-way ministick NW")
            .unwrap(),
        vec![VirtualButtonOrSpecial::Virtual(VirtualButton {
            id: 72,
            kind: VirtualButtonKind::Momentary(None)
        })]
    );
}

#[test]
fn test_lookup_unknown_label_is_button_not_found() {
    let sample_mappings = get_sample_mappings();

    let err = sample_mappings
        .get_virtual_button_ids_from_info_or_user_desc("(missing)")
        .unwrap_err();
    assert_eq!(
        err,
        VkbReportError::ButtonNotFound {
            info_or_user_desc: "(missing)".to_string()
        }
    );
}

#[test]
fn test_lookup_without_children_is_missing_children() {
    // A parent recorded under a virtual id, but no child list under its
    // physical id: an internal-consistency failure, surfaced as a typed
    // error.
    let broken = JoystickButtonsMapping {
        virtual_to_parents: vec![(
            44,
            vec![PhysicalButton::new(
                27,
                PhysicalButtonKind::Momentary { shift: None },
                "(A4 left)".to_string(),
                String::new(),
                String::new(),
            )],
        )],
        physical_to_children: vec![],
        special_buttons: vec![],
    };

    let err = broken
        .get_virtual_button_ids_from_info_or_user_desc("(A4 left)")
        .unwrap_err();
    assert_eq!(err, VkbReportError::MissingChildren { physical_id: 27 });
}

#[test]
fn test_free_virtual_buttons_exclude_keys_of_both_maps() {
    // Ids that appear as a key in either map are excluded from the free
    // list, even though only 44 is a "virtual" id.
    let mappings = get_sample_mappings();
    let free = mappings.log_free_virtual_buttons();

    assert!(!free.contains(&44));
    assert!(!free.contains(&108));
    assert!(!free.contains(&72));
    assert!(!free.contains(&27));
    assert!(!free.contains(&12));
    // Everything else in the valid range is free.
    assert_eq!(free.len(), 127 - 5);
    assert!(free.contains(&1));
    assert!(free.contains(&127));
    assert!(!free.contains(&0));
}

#[test]
fn test_inject_user_provided_desc_overwrites_by_position() {
    let mut mappings = get_sample_mappings();
    // One record per physical line, the label in the second column.
    let mut records: Vec<Vec<String>> = Vec::new();
    for i in 1..=72u8 {
        records.push(vec![format!("{i}"), format!("label {i}")]);
    }

    mappings.inject_user_provided_desc(&records).unwrap();

    let b27 = &mappings.virtual_to_parents[0].1[0];
    assert_eq!(b27.get_user_desc().as_str(), "label 27");
    let b12 = &mappings.virtual_to_parents[1].1[0];
    assert_eq!(b12.get_user_desc().as_str(), "label 12");
}

#[test]
fn test_inject_user_provided_desc_is_idempotent() {
    let mut once = get_sample_mappings();
    let mut twice = get_sample_mappings();
    let mut records: Vec<Vec<String>> = Vec::new();
    for i in 1..=72u8 {
        records.push(vec![format!("{i}"), format!("label {i}")]);
    }

    once.inject_user_provided_desc(&records).unwrap();
    twice.inject_user_provided_desc(&records).unwrap();
    twice.inject_user_provided_desc(&records).unwrap();

    for (a, b) in once
        .virtual_to_parents
        .iter()
        .zip(twice.virtual_to_parents.iter())
    {
        assert_eq!(a.0, b.0);
        for (x, y) in a.1.iter().zip(b.1.iter()) {
            assert_eq!(x.get_user_desc(), y.get_user_desc());
        }
    }
}

#[test]
fn test_inject_user_provided_desc_missing_record() {
    let mut mappings = get_sample_mappings();
    // Only 5 records, but physical line 27 needs the 27th.
    let records: Vec<Vec<String>> = (1..=5u8)
        .map(|i| vec![format!("{i}"), format!("label {i}")])
        .collect();

    let err = mappings.inject_user_provided_desc(&records).unwrap_err();
    assert_eq!(err, VkbReportError::MissingRecord { physical_id: 27 });
    // The graph is left unchanged.
    assert_eq!(mappings.virtual_to_parents[0].1[0].get_user_desc().as_str(), "");
}

#[test]
fn test_inject_user_provided_desc_missing_column() {
    let mut mappings = get_sample_mappings();
    let mut records: Vec<Vec<String>> = (1..=72u8)
        .map(|i| vec![format!("{i}"), format!("label {i}")])
        .collect();
    records[26] = vec!["27".to_string()];

    let err = mappings.inject_user_provided_desc(&records).unwrap_err();
    assert_eq!(err, VkbReportError::MissingColumn { physical_id: 27 });
}
