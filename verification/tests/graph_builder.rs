use sc_keymap_rs::{
    BuildDiagnostic, GameButtonsMapping, JoystickButtonsMapping, PhysicalButtonKind,
    SpecialButtonKind, VirtualButtonKind, VirtualButtonOrSpecial, VirtualTempoKind, VkbReport,
    VkbReportError, VkbXmlButton, parse_b2_button_desc_xml_escaped,
};

fn report(entries: Vec<VkbXmlButton>) -> VkbReport {
    VkbReport::new(entries)
}

#[test]
fn test_momentary_no_modifier_classification() {
    // A "momentary, no modifier" description yields Momentary with no shift
    // and the trimmed text between `#<id>` and the closing tag as the label.
    let b = parse_b2_button_desc_xml_escaped(
        "<b>#23 (Trigger guard)  </b><b>- Button with momentary action</b>",
    )
    .unwrap();
    assert_eq!(*b.get_id(), 23);
    assert_eq!(b.get_info().as_str(), "(Trigger guard)");
    assert_eq!(
        *b.get_kind(),
        PhysicalButtonKind::Momentary { shift: None }
    );
}

#[test]
fn test_tempo_classification_short_long_double() {
    // `Virtual button Short #S` and `Virtual button Long #L` yield Tempo2;
    // adding `Virtual button Double Short #D` yields Tempo3 instead.
    let two = parse_b2_button_desc_xml_escaped(
        "<b>#6 (F1) </b><b>TEMPO </b>\r\nVirtual button Short #6\r\nVirtual button Long #96",
    )
    .unwrap();
    assert!(matches!(
        two.get_kind(),
        PhysicalButtonKind::Tempo(sc_keymap_rs::TempoKind::Tempo2 {
            button_id_short: 6,
            button_id_long: 96,
        })
    ));

    let three = parse_b2_button_desc_xml_escaped(
        "<b>#6 (F1) </b><b>TEMPO </b>\r\nVirtual button Short #6\r\nVirtual button Long #96\r\nVirtual button Double Short #97",
    )
    .unwrap();
    assert!(matches!(
        three.get_kind(),
        PhysicalButtonKind::Tempo(sc_keymap_rs::TempoKind::Tempo3 {
            button_id_short: 6,
            button_id_long: 96,
            button_id_double: 97,
        })
    ));
}

#[test]
fn test_shift1_button_registers_special() {
    // `<b>#11 (D1) </b><b> SHIFT1 </b>` classifies as Shift1 and the built
    // graph registers "(D1)" as a special (pure modifier) button.
    let b = parse_b2_button_desc_xml_escaped("<b>#11 (D1) </b><b> SHIFT1 </b>").unwrap();
    assert_eq!(*b.get_id(), 11);
    assert_eq!(b.get_info().as_str(), "(D1)");
    assert_eq!(*b.get_kind(), PhysicalButtonKind::Shift1);

    let rep = report(vec![VkbXmlButton::B2(
        "<b>#11 (D1) </b><b> SHIFT1 </b>".to_string(),
    )]);
    let mapping = JoystickButtonsMapping::try_from(rep).unwrap();
    assert_eq!(mapping.special_buttons.len(), 1);
    assert_eq!(mapping.special_buttons[0].0.as_str(), "(D1)");
    assert_eq!(mapping.special_buttons[0].1, SpecialButtonKind::Shift1);

    let found = mapping
        .get_virtual_button_ids_from_info_or_user_desc("(D1)")
        .unwrap();
    assert_eq!(
        found,
        vec![VirtualButtonOrSpecial::Special(SpecialButtonKind::Shift1)]
    );
}

#[test]
fn test_encoder_companion_ids_are_discarded() {
    // The encoder's companion virtual ids (#61 / #62) are parsed out of the
    // surrounding text but never attached to the Encoder kind: a known
    // source limitation, flagged here on purpose.
    let b = parse_b2_button_desc_xml_escaped(
        "<b>#1 (E1) </b> / <b>#2  - Encoder 2/4</b>\r\nVirtual buttons : #61 / #62",
    )
    .unwrap();
    assert_eq!(*b.get_id(), 1);
    assert_eq!(b.get_info().as_str(), "(E1)");
    // Encoder exactly: no shift sub-identifiers are extracted.
    assert_eq!(*b.get_kind(), PhysicalButtonKind::Encoder);
}

#[test]
fn test_duplicate_virtual_assignment_is_diagnosed_not_rejected() {
    // Two physical entries that both resolve to virtual id 72: both are
    // registered under virtual_to_parents[72] and a duplicate diagnostic is
    // emitted, not an error.
    let rep = report(vec![
        VkbXmlButton::B2(
            "<b>#70 (S1) </b><b>- Button with momentary action</b>\r\nVirtual button with SHIFT1 = 72".to_string(),
        ),
        VkbXmlButton::B3("<b>#70 </b> Joystick button : #72".to_string()),
        VkbXmlButton::B2(
            "<b>#71 (S2) </b><b>- Button with momentary action</b>\r\nVirtual button with SHIFT1 = 72".to_string(),
        ),
        VkbXmlButton::B3("<b>#71 </b> Joystick button : #72".to_string()),
    ]);
    let (mapping, diags) = JoystickButtonsMapping::build_with_diagnostics(rep).unwrap();

    assert_eq!(mapping.virtual_to_parents.len(), 1);
    assert_eq!(mapping.virtual_to_parents[0].0, 72);
    assert_eq!(mapping.virtual_to_parents[0].1.len(), 2);
    assert_eq!(*mapping.virtual_to_parents[0].1[0].get_id(), 70);
    assert_eq!(*mapping.virtual_to_parents[0].1[1].get_id(), 71);
    assert!(diags.contains(&BuildDiagnostic::DuplicateVirtualAssignment { virtual_id: 72 }));
}

#[test]
fn test_build_graph_end_to_end() {
    let rep = report(vec![
        VkbXmlButton::B2(
            "<b>#5 (F3) </b><b>TEMPO </b>\r\nVirtual button Short #5\r\nVirtual button Long #94"
                .to_string(),
        ),
        VkbXmlButton::B3("<b>#5 </b> Joystick button : #5".to_string()),
        VkbXmlButton::B3("<b>#5 </b> Joystick button : #94".to_string()),
    ]);
    let mapping = JoystickButtonsMapping::try_from(rep).unwrap();

    assert_eq!(mapping.physical_to_children.len(), 1);
    assert_eq!(mapping.physical_to_children[0].0, 5);
    let children = &mapping.physical_to_children[0].1;
    assert_eq!(children.len(), 2);
    assert_eq!(children[0].id, 5);
    assert_eq!(children[0].kind, VirtualButtonKind::Tempo(VirtualTempoKind::Short));
    assert_eq!(children[1].id, 94);
    assert_eq!(children[1].kind, VirtualButtonKind::Tempo(VirtualTempoKind::Long));

    // Round trip: looking the physical button up by its own label answers
    // with its (non-empty) virtual-button list.
    let found = mapping
        .get_virtual_button_ids_from_info_or_user_desc("(F3)")
        .unwrap();
    assert_eq!(found.len(), 2);
}

#[test]
fn test_virtual_entry_before_any_physical_is_missing_parent() {
    let rep = report(vec![VkbXmlButton::B3(
        "<b>#5 </b> Joystick button : #5".to_string(),
    )]);
    let err = JoystickButtonsMapping::try_from(rep).unwrap_err();
    assert_eq!(err, VkbReportError::MissingParent);
}

#[test]
fn test_virtual_id_not_tracing_back_is_inconsistent_parent_link() {
    let rep = report(vec![
        VkbXmlButton::B2(
            "<b>#3 (E2) </b><b>- Button with momentary action</b>\r\nVirtual button with SHIFT1 = 50"
                .to_string(),
        ),
        VkbXmlButton::B3("<b>#99 </b> Joystick button : #99".to_string()),
    ]);
    let err = JoystickButtonsMapping::try_from(rep).unwrap_err();
    assert_eq!(
        err,
        VkbReportError::InconsistentParentLink {
            virtual_id: 99,
            parent_id: 3
        }
    );
}

#[test]
fn test_unrecognized_description_names_the_text() {
    let err = parse_b2_button_desc_xml_escaped("<b>#3 (E2) </b><b>mystery keyword</b>")
        .unwrap_err();
    assert_eq!(
        err,
        VkbReportError::UnrecognizedDescription {
            desc: "<b>#3 (E2) </b><b>mystery keyword</b>".to_string()
        }
    );
}

#[test]
fn test_malformed_identifier_names_the_number() {
    let err = parse_b2_button_desc_xml_escaped(
        "<b>#300 (E2) </b><b>- Button with momentary action</b>",
    )
    .unwrap_err();
    assert_eq!(
        err,
        VkbReportError::MalformedIdentifier {
            text: "300".to_string()
        }
    );
}

#[test]
fn test_get_action_from_virtual_button_id() {
    let game = GameButtonsMapping::new(vec![
        (
            "js1_button2".to_string(),
            vec!["v_weapon_toggle_launch_missile".to_string()],
        ),
        (
            "js2_button55".to_string(),
            vec!["v_toggle_landing_gear".to_string(), "v_toggle_vtol".to_string()],
        ),
    ]);

    let actions = game.get_action_from_virtual_button_id(2, 1).unwrap();
    assert_eq!(actions, &vec!["v_weapon_toggle_launch_missile".to_string()]);

    let actions = game.get_action_from_virtual_button_id(55, 2).unwrap();
    assert_eq!(actions.len(), 2);

    assert!(game.get_action_from_virtual_button_id(55, 1).is_none());
    assert!(game.get_action_from_virtual_button_id(3, 1).is_none());
}

#[test]
fn test_report_keeps_entry_order() {
    let rep = report(vec![
        VkbXmlButton::B2("<b>#3 (E2) </b><b>- Button with momentary action</b>".to_string()),
        VkbXmlButton::B3("<b>#3 </b> Joystick button : #3".to_string()),
    ]);
    let buttons = rep.get_all_buttons();
    assert_eq!(buttons.len(), 2);
    assert!(matches!(buttons[0], VkbXmlButton::B2(_)));
    assert!(matches!(buttons[1], VkbXmlButton::B3(_)));
}
