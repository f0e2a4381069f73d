use sc_keymap_rs::{
    ButtonIdAndInfo, PhysicalButton, PhysicalButtonKind, ShiftKind, TempoKind, VirtualButton,
    VirtualButtonKind, extract_button_id_from_inner_html, parse_b2_button_desc_xml_escaped,
    parse_b3_button_desc_xml_escaped,
};

#[test]
fn vkb_button_test_extract_button_id_from_inner_html() {
    let test_inputs_vs_expected_results = vec![
        (
            "#1 (E1) ",
            ButtonIdAndInfo {
                id: 1,
                info: Some("(E1)".to_string()),
            },
        ),
        (
            "#2  - Encoder 2/4",
            ButtonIdAndInfo {
                id: 2,
                info: Some("- Encoder 2/4".to_string()),
            },
        ),
    ];

    for (input, expected_result) in test_inputs_vs_expected_results {
        let button = extract_button_id_from_inner_html(input).unwrap();
        assert_eq!(button, expected_result);
    }
}

#[test]
fn parse_vkb_report_xml_test_extract_button_id_from_inner_html() {
    let test_inputs_vs_expected_results = vec![
        (
            "#1 (E1) ",
            ButtonIdAndInfo {
                id: 1,
                info: Some("(E1)".to_string()),
            },
        ),
        (
            "#2  - Encoder 2/4",
            ButtonIdAndInfo {
                id: 2,
                info: Some("- Encoder 2/4".to_string()),
            },
        ),
    ];

    for (input, expected_result) in test_inputs_vs_expected_results {
        let button = extract_button_id_from_inner_html(input).unwrap();
        assert_eq!(button, expected_result);
    }
}

#[test]
fn test_parse_b2_button_desc_xml_escaped() {
    let test_inputs_vs_expected_results = vec![
        (
            "<b>#1 (E1) </b> / <b>#2  - Encoder 2/4</b>\r\nVirtual buttons : #61 / #62",
            PhysicalButton::new(
                1,
                PhysicalButtonKind::Encoder,
                "(E1)".to_string(),
                "#2  - Encoder 2/4".to_string(),
                "".to_string(),
            ),
        ),
        (
            "<b>#3 (E2) </b><b>- Button with momentary action</b>",
            PhysicalButton::new(
                3,
                PhysicalButtonKind::Momentary { shift: None },
                "(E2)".to_string(),
                "- Button with momentary action".to_string(),
                "".to_string(),
            ),
        ),
        (
            "<b>#4 </b><b>- Button with momentary action</b>",
            PhysicalButton::new(
                4,
                PhysicalButtonKind::Momentary { shift: None },
                "".to_string(),
                "- Button with momentary action".to_string(),
                "".to_string(),
            ),
        ),
        (
            "<b>#5 (F3) </b><b>TEMPO </b>\r\nVirtual button Short #5\r\nVirtual button Long #94",
            PhysicalButton::new(
                5,
                PhysicalButtonKind::Tempo(TempoKind::Tempo2 {
                    button_id_short: 5,
                    button_id_long: 94,
                }),
                "(F3)".to_string(),
                "TEMPO ".to_string(),
                "".to_string(),
            ),
        ),
        (
            "<b>#5 (F3) </b><b>TEMPO </b>\r\nVirtual button Short #5\r\nVirtual button Long #94\r\nVirtual button Double Short #95",
            PhysicalButton::new(
                5,
                PhysicalButtonKind::Tempo(TempoKind::Tempo3 {
                    button_id_short: 5,
                    button_id_long: 94,
                    button_id_double: 95,
                }),
                "(F3)".to_string(),
                "TEMPO ".to_string(),
                "".to_string(),
            ),
        ),
        (
            "<b>#9 (Fire 2-nd stage) </b><b>- Button with momentary action</b>",
            PhysicalButton::new(
                9,
                PhysicalButtonKind::Momentary { shift: None },
                "(Fire 2-nd stage)".to_string(),
                "- Button with momentary action".to_string(),
                "".to_string(),
            ),
        ),
        (
            "<b>#10 (Fire 1-st stage) </b><b>- Button with momentary action</b>\r\nVirtual button with SHIFT1 = 64\r\nVirtual button with SHIFT2 = 91",
            PhysicalButton::new(
                10,
                PhysicalButtonKind::Momentary {
                    shift: Some(ShiftKind::Shift12 {
                        button_id_shift1: 64,
                        button_id_shift2: 91,
                    }),
                },
                "(Fire 1-st stage)".to_string(),
                "- Button with momentary action".to_string(),
                "".to_string(),
            ),
        ),
        (
            "<b>#11 (D1) </b><b> SHIFT1 </b>",
            PhysicalButton::new(
                11,
                PhysicalButtonKind::Shift1,
                "(D1)".to_string(),
                " SHIFT1 ".to_string(),
                "".to_string(),
            ),
        ),
        (
            "<b>#12 (A2) </b><b>- Button with momentary action</b>\r\nVirtual button with SHIFT1 = 13\r\nVirtual button with SHIFT2 = 90",
            PhysicalButton::new(
                12,
                PhysicalButtonKind::Momentary {
                    shift: Some(ShiftKind::Shift12 {
                        button_id_shift1: 13,
                        button_id_shift2: 90,
                    }),
                },
                "(A2)".to_string(),
                "- Button with momentary action".to_string(),
                "".to_string(),
            ),
        ),
        (
            "<b>#18 (A1 down) </b> <b>Point of view Switch</b> POV1  Down",
            PhysicalButton::new(
                18,
                PhysicalButtonKind::Pov {
                    direction: "Down".to_string(),
                },
                "(A1 down)".to_string(),
                "Point of view Switch".to_string(),
                "".to_string(),
            ),
        ),
        (
            "<b>#35 (Rapid fire forward) </b><b>- Button with momentary action</b>\r\nVirtual button with SHIFT1 = 37",
            PhysicalButton::new(
                35,
                PhysicalButtonKind::Momentary {
                    shift: Some(ShiftKind::Shift1 { button_id_shift1: 37 }),
                },
                "(Rapid fire forward)".to_string(),
                "- Button with momentary action".to_string(),
                "".to_string(),
            ),
        ),
        (
            "<b>#37 </b><b> No defined function</b>",
            PhysicalButton::new(
                37,
                PhysicalButtonKind::Undefined,
                "".to_string(),
                " No defined function".to_string(),
                "".to_string(),
            ),
        ),
        (
            "<b>#9 (Fire 2-nd stage) </b><b>- Button with momentary action</b>\r\nVirtual button with SHIFT1 = 63\r\nVirtual button with SHIFT2 = 92",
            PhysicalButton::new(
                9,
                PhysicalButtonKind::Momentary {
                    shift: Some(ShiftKind::Shift12 {
                        button_id_shift1: 63,
                        button_id_shift2: 92,
                    }),
                },
                "(Fire 2-nd stage)".to_string(),
                "- Button with momentary action".to_string(),
                "".to_string(),
            ),
        ),
    ];

    for (input, expected_result) in test_inputs_vs_expected_results {
        let button = parse_b2_button_desc_xml_escaped(input).unwrap();
        assert_eq!(button, expected_result);
    }
}

#[test]
fn test_parse_b3_button_desc_xml_escaped() {
    let test_inputs_vs_expected_results = vec![
        (
            r#"<b>#61 </b> Joystick button : #61"#,
            VirtualButton {
                id: 61,
                kind: VirtualButtonKind::Momentary(None),
            },
        ),
        (
            // REALLY IMPORTANT to have proper duplication detection:
            // in this case the game WILL see "button 53" NOT "button 7"
            r#"<b>#7 </b> Joystick button : #53"#,
            VirtualButton {
                id: 53,
                kind: VirtualButtonKind::Momentary(None),
            },
        ),
    ];

    let parent = PhysicalButton::new(
        42,
        PhysicalButtonKind::Momentary { shift: None },
        String::new(),
        String::new(),
        String::new(),
    );
    for (input, expected_result) in test_inputs_vs_expected_results {
        let button = parse_b3_button_desc_xml_escaped(input, &parent).unwrap();
        assert_eq!(button, expected_result);
    }
}
