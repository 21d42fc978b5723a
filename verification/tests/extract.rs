use fcv_converter::document::{get_frame_settings, resolve_token, ExtractError};
use fcv_converter::event::{find_attribute, XmlAttribute, XmlEvent};
use fcv_converter::extract::{add_record, extract_frames, ExtractState};
use fcv_converter::frame::Frame;
use fcv_converter::xml::RawToken;

fn attribute(key: &str, value: &str) -> XmlAttribute {
    XmlAttribute { key: key.to_string(), value: value.to_string() }
}

fn start(name: &str, attributes: Vec<XmlAttribute>) -> XmlEvent {
    XmlEvent::Start { name: name.to_string(), attributes }
}

fn end(name: &str) -> XmlEvent {
    XmlEvent::End { name: name.to_string() }
}

fn empty(name: &str, attributes: Vec<XmlAttribute>) -> XmlEvent {
    XmlEvent::Empty { name: name.to_string(), attributes }
}

#[test]
fn one_frame_with_a_generic_parameter() {
    let xml = "<root><frame no=\"100\"><setting><param><p_gp name=\"bgbout\" value=\"0.75,ignored\"/></param></setting></frame></root>";
    let frames = get_frame_settings(xml).unwrap();
    assert_eq!(frames.len(), 1);
    assert_eq!(frames[0].no, "100");
    assert_eq!(frames[0].p_gp.len(), 1);
    assert_eq!(frames[0].p_gp[0].name, "bgbout");
    assert_eq!(frames[0].p_gp[0].value, "0.75,ignored");
    assert!(frames[0].p_glare.is_empty());
    assert!(frames[0].p_softfocus.is_empty());
    assert!(frames[0].p_dof.is_empty());
}

#[test]
fn every_frame_tag_gives_a_frame_in_document_order() {
    let xml = "<?xml version=\"1.0\"?>\n<!-- camera -->\n<anm>\n  <info a=\"1\"/>\n  <frame no=\"300\">\n    <setting><param/></setting>\n  </frame>\n  <other>text</other>\n  <frame no=\"100\"></frame>\n  <frame></frame>\n  <frame no=\"100\"><unrelated><deep/></unrelated></frame>\n</anm>\n";
    let frames = get_frame_settings(xml).unwrap();
    assert_eq!(frames.len(), 4);
    assert_eq!(frames[0].no, "300");
    assert_eq!(frames[1].no, "100");
    assert_eq!(frames[2].no, "");
    assert_eq!(frames[3].no, "100");
}

#[test]
fn a_document_without_frames_gives_an_empty_timeline() {
    assert!(get_frame_settings("<anm><setting><param><p_gp name=\"a\" value=\"b\"/></param></setting></anm>").unwrap().is_empty());
    assert!(get_frame_settings("").unwrap().is_empty());
}

#[test]
fn an_empty_frame_element_opens_no_frame() {
    let frames = get_frame_settings("<anm><frame no=\"1\"/><frame no=\"2\"></frame></anm>").unwrap();
    assert_eq!(frames.len(), 1);
    assert_eq!(frames[0].no, "2");
}

#[test]
fn two_generic_parameters_stay_in_the_order_met() {
    let xml = "<frame no=\"0\"><setting><param><p_gp name=\"first\" value=\"1\"/><p_gp name=\"second\" value=\"2\"/></param></setting></frame>";
    let frames = get_frame_settings(xml).unwrap();
    assert_eq!(frames.len(), 1);
    assert_eq!(frames[0].p_gp.len(), 2);
    assert_eq!(frames[0].p_gp[0].name, "first");
    assert_eq!(frames[0].p_gp[0].value, "1");
    assert_eq!(frames[0].p_gp[1].name, "second");
    assert_eq!(frames[0].p_gp[1].value, "2");
}

#[test]
fn two_glare_records_are_both_kept() {
    let xml = "<frame no=\"0\"><setting><param><p_glare threshold=\"0.1\" subtractionColor=\"0.2\" compositionIntensity=\"0.3\"/><p_glare threshold=\"9\" subtractionColor=\"8\" compositionIntensity=\"7\"/></param></setting></frame>";
    let frames = get_frame_settings(xml).unwrap();
    assert_eq!(frames[0].p_glare.len(), 2);
    assert_eq!(frames[0].p_glare[0].threshold, "0.1");
    assert_eq!(frames[0].p_glare[0].subtraction_color, "0.2");
    assert_eq!(frames[0].p_glare[0].composition_intensity, "0.3");
    assert_eq!(frames[0].p_glare[1].threshold, "9");
    assert_eq!(frames[0].p_glare[1].subtraction_color, "8");
    assert_eq!(frames[0].p_glare[1].composition_intensity, "7");
}

#[test]
fn all_four_parameter_elements_are_read() {
    let xml = "<anm><frame no=\"200\"><setting><param>\n<p_softfocus intensity=\"0.5\"/>\n<p_dof focusDistance=\"1\" nearDistance=\"2\" farDistance=\"3\" blurMaxFar=\"4\" blurEdge=\"5\"/>\n<p_glare threshold=\"6\" subtractionColor=\"7\" compositionIntensity=\"8\"/>\n<p_gp name=\"n\" value=\"v\"/>\n</param></setting></frame></anm>";
    let frames = get_frame_settings(xml).unwrap();
    assert_eq!(frames.len(), 1);
    let frame = &frames[0];
    assert_eq!(frame.p_softfocus.len(), 1);
    assert_eq!(frame.p_softfocus[0].intensity, "0.5");
    assert_eq!(frame.p_dof.len(), 1);
    assert_eq!(frame.p_dof[0].focus_distance, "1");
    assert_eq!(frame.p_dof[0].near_distance, "2");
    assert_eq!(frame.p_dof[0].far_distance, "3");
    assert_eq!(frame.p_dof[0].blur_max_far, "4");
    assert_eq!(frame.p_dof[0].blur_edge, "5");
    assert_eq!(frame.p_glare.len(), 1);
    assert_eq!(frame.p_glare[0].threshold, "6");
    assert_eq!(frame.p_gp.len(), 1);
}

#[test]
fn records_go_to_the_last_frame() {
    let xml = "<anm><frame no=\"1\"><setting><param><p_gp name=\"a\" value=\"1\"/></param></setting></frame><frame no=\"2\"><setting><param><p_gp name=\"b\" value=\"2\"/></param></setting></frame></anm>";
    let frames = get_frame_settings(xml).unwrap();
    assert_eq!(frames.len(), 2);
    assert_eq!(frames[0].p_gp.len(), 1);
    assert_eq!(frames[0].p_gp[0].name, "a");
    assert_eq!(frames[1].p_gp.len(), 1);
    assert_eq!(frames[1].p_gp[0].name, "b");
}

#[test]
fn missing_attributes_give_empty_texts_and_unknown_ones_are_passed_over() {
    let xml = "<frame><setting><param><p_glare threshold=\"1\" colour=\"red\"/><p_gp value=\"v\" extra=\"x\"/></param></setting></frame>";
    let frames = get_frame_settings(xml).unwrap();
    assert_eq!(frames[0].no, "");
    assert_eq!(frames[0].p_glare[0].threshold, "1");
    assert_eq!(frames[0].p_glare[0].subtraction_color, "");
    assert_eq!(frames[0].p_glare[0].composition_intensity, "");
    assert_eq!(frames[0].p_gp[0].name, "");
    assert_eq!(frames[0].p_gp[0].value, "v");
}

#[test]
fn attribute_values_are_kept_as_written() {
    let xml = "<frame no=' 7 '><setting><param><p_gp name='a&amp;b' value=\"x y\"/></param></setting></frame>";
    let frames = get_frame_settings(xml).unwrap();
    assert_eq!(frames[0].no, " 7 ");
    assert_eq!(frames[0].p_gp[0].name, "a&amp;b");
    assert_eq!(frames[0].p_gp[0].value, "x y");
}

#[test]
fn text_outside_ascii_is_kept() {
    let xml = "<frame no=\"1\"><setting><param><p_gp name=\"名前\" value=\"é,ü\"/></param></setting></frame>";
    let frames = get_frame_settings(xml).unwrap();
    assert_eq!(frames[0].p_gp[0].name, "名前");
    assert_eq!(frames[0].p_gp[0].value, "é,ü");
}

#[test]
fn parameter_elements_outside_a_param_are_passed_over() {
    let xml = "<anm><p_gp name=\"a\" value=\"1\"/><frame no=\"1\"><p_gp name=\"b\" value=\"2\"/><setting><p_glare threshold=\"1\"/><param></param><p_dof/></setting></frame></anm>";
    let frames = get_frame_settings(xml).unwrap();
    assert_eq!(frames.len(), 1);
    assert!(frames[0].p_gp.is_empty());
    assert!(frames[0].p_glare.is_empty());
    assert!(frames[0].p_dof.is_empty());
}

#[test]
fn a_param_outside_a_setting_does_not_count() {
    let xml = "<frame no=\"1\"><param><p_gp name=\"a\" value=\"1\"/></param></frame>";
    let frames = get_frame_settings(xml).unwrap();
    assert_eq!(frames.len(), 1);
    assert!(frames[0].p_gp.is_empty());
}

#[test]
fn a_setting_outside_a_frame_does_not_count() {
    let xml = "<anm><setting><param><p_gp name=\"a\" value=\"1\"/></param></setting></anm>";
    assert!(get_frame_settings(xml).unwrap().is_empty());
}

#[test]
fn a_parameter_element_behind_the_end_of_its_frame_is_passed_over() {
    let xml = "<anm><frame no=\"1\"><setting><param><frame no=\"2\"></frame><p_gp name=\"late\" value=\"1\"/></param></setting></frame></anm>";
    let frames = get_frame_settings(xml).unwrap();
    assert_eq!(frames.len(), 2);
    assert!(frames[0].p_gp.is_empty());
    assert!(frames[1].p_gp.is_empty());
}

#[test]
fn mismatched_end_tag_is_an_error() {
    let xml = "<root><frame no=\"1\"></root>";
    assert_eq!(get_frame_settings(xml).unwrap_err(), ExtractError::Markup);
}

#[test]
fn an_unclosed_comment_is_an_error() {
    assert_eq!(
        get_frame_settings("<anm><frame no=\"1\"></frame><!-- open").unwrap_err(),
        ExtractError::Markup
    );
}

#[test]
fn nothing_is_read_behind_an_error() {
    let xml = "<anm><frame no=\"1\"></anm><frame no=\"2\"></frame>";
    assert_eq!(get_frame_settings(xml).unwrap_err(), ExtractError::Markup);
}

#[test]
fn an_end_tag_without_a_start_is_an_error() {
    assert_eq!(get_frame_settings("</frame>").unwrap_err(), ExtractError::Markup);
}

#[test]
fn a_malformed_attribute_of_a_frame_is_an_error() {
    assert_eq!(get_frame_settings("<frame no=100></frame>").unwrap_err(), ExtractError::Attributes);
    assert_eq!(get_frame_settings("<frame no></frame>").unwrap_err(), ExtractError::Attributes);
    assert_eq!(get_frame_settings("<frame no=\"1></frame>").unwrap_err(), ExtractError::Attributes);
}

#[test]
fn a_key_named_twice_is_an_error() {
    assert_eq!(
        get_frame_settings("<frame no=\"1\" no=\"2\"></frame>").unwrap_err(),
        ExtractError::Attributes
    );
}

#[test]
fn a_malformed_attribute_of_a_record_is_an_error() {
    let xml = "<frame no=\"1\"><setting><param><p_gp name=bgbout value=\"1\"/></param></setting></frame>";
    assert_eq!(get_frame_settings(xml).unwrap_err(), ExtractError::Attributes);
}

#[test]
fn malformed_attributes_of_passed_over_tags_are_no_error() {
    let xml = "<anm x=1><frame no=\"1\"><setting a a><param b=c><other d/></param></setting><p_gp name=x/></frame></anm>";
    let frames = get_frame_settings(xml).unwrap();
    assert_eq!(frames.len(), 1);
    assert_eq!(frames[0].no, "1");
    assert!(frames[0].p_gp.is_empty());
}

#[test]
fn events_by_hand_give_the_same_timeline() {
    let events = vec![
        XmlEvent::Other,
        start("anm", vec![]),
        start("frame", vec![attribute("no", "100")]),
        start("setting", vec![]),
        start("param", vec![]),
        empty("p_gp", vec![attribute("name", "bgbout"), attribute("value", "0.75,ignored")]),
        empty("p_softfocus", vec![attribute("intensity", "2")]),
        empty("p_unknown", vec![attribute("intensity", "3")]),
        end("param"),
        empty("p_gp", vec![attribute("name", "late"), attribute("value", "1")]),
        end("setting"),
        end("frame"),
        start("frame", vec![]),
        end("frame"),
        end("anm"),
    ];
    let frames = extract_frames(&events);
    assert_eq!(frames.len(), 2);
    assert_eq!(frames[0].no, "100");
    assert_eq!(frames[0].p_gp.len(), 1);
    assert_eq!(frames[0].p_gp[0].value, "0.75,ignored");
    assert_eq!(frames[0].p_softfocus.len(), 1);
    assert_eq!(frames[0].p_softfocus[0].intensity, "2");
    assert_eq!(frames[1].no, "");
    assert!(frames[1].p_gp.is_empty());
}

#[test]
fn the_state_follows_the_scoping_elements() {
    let mut state = ExtractState::new();
    assert!(!state.inside_frame && !state.inside_setting && !state.inside_param);
    assert!(!state.reads_records());
    state.accept(&start("setting", vec![]));
    assert!(!state.inside_setting);
    state.accept(&start("frame", vec![attribute("no", "5")]));
    assert!(state.inside_frame);
    assert_eq!(state.frames.len(), 1);
    state.accept(&start("param", vec![]));
    assert!(!state.inside_param);
    state.accept(&start("setting", vec![]));
    assert!(state.inside_setting);
    state.accept(&start("param", vec![]));
    assert!(state.inside_param);
    assert!(state.reads_records());
    state.accept(&end("other"));
    assert!(state.inside_param);
    state.accept(&end("param"));
    assert!(!state.inside_param && state.inside_setting && state.inside_frame);
    state.accept(&end("setting"));
    assert!(!state.inside_setting && state.inside_frame);
    state.accept(&end("frame"));
    assert!(!state.inside_frame);
    assert_eq!(state.frames.len(), 1);
    assert_eq!(state.frames[0].no, "5");
}

#[test]
fn the_last_of_equal_keys_gives_the_value() {
    let attributes = vec![attribute("no", "1"), attribute("other", "x"), attribute("no", "2")];
    assert_eq!(find_attribute(&attributes, "no"), "2");
    assert_eq!(find_attribute(&attributes, "other"), "x");
    assert_eq!(find_attribute(&attributes, "missing"), "");
    assert_eq!(find_attribute(&Vec::new(), "no"), "");
}

#[test]
fn a_record_is_added_behind_those_of_its_kind() {
    let mut frame = Frame::new("1".to_string());
    add_record(&mut frame, "p_dof", &vec![attribute("blurEdge", "0.5")]);
    add_record(&mut frame, "p_dof", &vec![attribute("blurEdge", "0.6")]);
    add_record(&mut frame, "p_other", &vec![attribute("blurEdge", "0.7")]);
    assert_eq!(frame.p_dof.len(), 2);
    assert_eq!(frame.p_dof[0].blur_edge, "0.5");
    assert_eq!(frame.p_dof[1].blur_edge, "0.6");
    assert_eq!(frame.p_dof[1].focus_distance, "");
    assert!(frame.p_gp.is_empty() && frame.p_glare.is_empty() && frame.p_softfocus.is_empty());
}

#[test]
fn a_token_is_read_with_its_attributes_where_they_are_used() {
    let state = ExtractState::new();
    let frame = RawToken::Start { name: b"frame".to_vec(), content: b"frame no=\"12\" x='y'".to_vec() };
    match resolve_token(&state, &frame).unwrap() {
        XmlEvent::Start { name, attributes } => {
            assert_eq!(name, "frame");
            assert_eq!(attributes.len(), 2);
            assert_eq!(attributes[0].key, "no");
            assert_eq!(attributes[0].value, "12");
            assert_eq!(attributes[1].key, "x");
            assert_eq!(attributes[1].value, "y");
        },
        other => panic!("{:?}", other),
    }
    let other = RawToken::Start { name: b"setting".to_vec(), content: b"setting no=\"12\"".to_vec() };
    match resolve_token(&state, &other).unwrap() {
        XmlEvent::Start { name, attributes } => {
            assert_eq!(name, "setting");
            assert!(attributes.is_empty());
        },
        other => panic!("{:?}", other),
    }
    let record = RawToken::Empty { name: b"p_gp".to_vec(), content: b"p_gp name=\"n\"".to_vec() };
    match resolve_token(&state, &record).unwrap() {
        XmlEvent::Empty { name, attributes } => {
            assert_eq!(name, "p_gp");
            assert!(attributes.is_empty());
        },
        other => panic!("{:?}", other),
    }
    let close = RawToken::End { name: b"frame".to_vec() };
    assert!(matches!(resolve_token(&state, &close), Some(XmlEvent::End { name }) if name == "frame"));
    assert!(matches!(resolve_token(&state, &RawToken::Other), Some(XmlEvent::Other)));
    let broken = RawToken::Start { name: b"frame".to_vec(), content: b"frame no=12".to_vec() };
    assert!(resolve_token(&state, &broken).is_none());
}
