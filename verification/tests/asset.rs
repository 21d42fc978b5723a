use fcv_converter::asset::{
    create_bcadjustments_fcv_struct, create_brightrate_fcv_struct, create_curve_asset,
    create_dof_fcv_struct, create_glare_fcv_struct, create_rows_asset,
    create_softfocus_fcv_struct, create_zrange_fcv_struct, kind_suffix_text, make_asset,
    ChunkType, FORMAT_VERSION,
};
use fcv_converter::curve::{CurveKind, CurveRow, DataError};
use fcv_converter::document::get_frame_settings;
use fcv_converter::frame::{Frame, PDof, PGlare, PSoftFocus, Pgp};
use fcv_converter::pages::{create_fcv_xfbin, make_page, AssetPage};

fn one_row(frame_no: &str, value: Option<f32>) -> Vec<CurveRow> {
    vec![CurveRow { frame_no: frame_no.to_string(), values: vec![value.map(|number| number.to_bits())] }]
}

fn frame_with_all(no: &str) -> Frame {
    let mut frame = Frame::new(no.to_string());
    frame.p_glare.push(PGlare {
        threshold: "0.8".to_string(),
        subtraction_color: "0.1".to_string(),
        composition_intensity: "1.5".to_string(),
    });
    frame.p_softfocus.push(PSoftFocus { intensity: "0.3".to_string() });
    frame.p_dof.push(PDof {
        focus_distance: "10".to_string(),
        near_distance: "1".to_string(),
        far_distance: "100".to_string(),
        blur_max_far: "0.5".to_string(),
        blur_edge: "0.25".to_string(),
    });
    frame.p_gp.push(Pgp { name: "bgbout".to_string(), value: "1.0,rest".to_string() });
    frame
}

const ZRANGE: &str = "FCURVE_TYPE_ZRANGE,\r\nFCURVE_INTERPOLATION_CONSTRAINT,\r\n1,\r\n1,1.000000,9000000.000000\r\n";
const BCADJUSTMENTS: &str = "FCURVE_TYPE_BCADJUSTMENTS,\r\nFCURVE_INTERPOLATION_CONSTRAINT,\r\n1,\r\n0,0.00000,1.250000\r\n";

#[test]
fn an_asset_carries_name_path_version_and_bytes() {
    let asset = make_asset("cam01", "glare", "line\r\n");
    assert_eq!(asset.name, "cam01_glare");
    assert_eq!(asset.chunk_type, ChunkType::Binary);
    assert_eq!(asset.filepath, "Z:/anm/cam01/fcv/cam01_glare.fcv");
    assert_eq!(asset.version, 121);
    assert_eq!(FORMAT_VERSION, 121);
    assert_eq!(asset.data, b"line\r\n".to_vec());
    let wide = make_asset("カメラ", "dof", "é");
    assert_eq!(wide.name, "カメラ_dof");
    assert_eq!(wide.filepath, "Z:/anm/カメラ/fcv/カメラ_dof.fcv");
    assert_eq!(wide.data, "é".as_bytes().to_vec());
}

#[test]
fn the_suffixes_of_the_curves() {
    assert_eq!(kind_suffix_text(CurveKind::Glare), "glare");
    assert_eq!(kind_suffix_text(CurveKind::SoftFocus), "softfocus");
    assert_eq!(kind_suffix_text(CurveKind::DepthOfField), "dof");
    assert_eq!(kind_suffix_text(CurveKind::BrightRate), "bright_rate");
}

#[test]
fn the_constant_curves_have_fixed_bytes() {
    let zrange = create_zrange_fcv_struct("cam");
    assert_eq!(zrange.name, "cam_zrange");
    assert_eq!(zrange.filepath, "Z:/anm/cam/fcv/cam_zrange.fcv");
    assert_eq!(zrange.version, 121);
    assert_eq!(zrange.chunk_type, ChunkType::Binary);
    assert_eq!(zrange.data, ZRANGE.as_bytes().to_vec());
    let bcadjustments = create_bcadjustments_fcv_struct("cam");
    assert_eq!(bcadjustments.name, "cam_bcadjustments");
    assert_eq!(bcadjustments.filepath, "Z:/anm/cam/fcv/cam_bcadjustments.fcv");
    assert_eq!(bcadjustments.version, 121);
    assert_eq!(bcadjustments.chunk_type, ChunkType::Binary);
    assert_eq!(bcadjustments.data, BCADJUSTMENTS.as_bytes().to_vec());
}

#[test]
fn each_curve_has_its_own_asset() {
    let frames = vec![frame_with_all("100")];
    let glare = create_glare_fcv_struct(&frames, "cam").unwrap().unwrap();
    assert_eq!(glare.name, "cam_glare");
    assert_eq!(glare.filepath, "Z:/anm/cam/fcv/cam_glare.fcv");
    assert_eq!(
        glare.data,
        b"FCURVE_TYPE_GLARE,\r\nFCURVE_INTERPOLATION_CONSTRAINT,\r\n1,\r\n1,0.800000,0.100000,1.500000,\r\n".to_vec()
    );
    let soft = create_softfocus_fcv_struct(&frames, "cam").unwrap().unwrap();
    assert_eq!(soft.name, "cam_softfocus");
    assert_eq!(soft.filepath, "Z:/anm/cam/fcv/cam_softfocus.fcv");
    assert_eq!(
        soft.data,
        b"FCURVE_TYPE_SOFTFOCUS,\r\nFCURVE_INTERPOLATION_CONSTRAINT,\r\n1,\r\n1,0.300000,\r\n".to_vec()
    );
    let dof = create_dof_fcv_struct(&frames, "cam").unwrap().unwrap();
    assert_eq!(dof.name, "cam_dof");
    assert_eq!(dof.filepath, "Z:/anm/cam/fcv/cam_dof.fcv");
    assert_eq!(
        dof.data,
        b"FCURVE_TYPE_DOF,\r\nFCURVE_INTERPOLATION_CONSTRAINT,\r\n1,\r\n1,10.000000,1.000000,100.000000,0.500000,0.250000,\r\n".to_vec()
    );
    let bright = create_brightrate_fcv_struct(&frames, "cam").unwrap().unwrap();
    assert_eq!(bright.name, "cam_bright_rate");
    assert_eq!(bright.filepath, "Z:/anm/cam/fcv/cam_bright_rate.fcv");
    assert_eq!(
        bright.data,
        b"FCURVE_TYPE_BRIGHT_RATE,\r\nFCURVE_INTERPOLATION_CONSTRAINT,\r\n1,\r\n1,1.000000,\r\n".to_vec()
    );
    for asset in [&glare, &soft, &dof, &bright] {
        assert_eq!(asset.version, 121);
        assert_eq!(asset.chunk_type, ChunkType::Binary);
    }
}

#[test]
fn the_general_emitter_agrees_with_the_named_ones() {
    let frames = vec![frame_with_all("100"), Frame::new("200".to_string()), frame_with_all("300")];
    let named = create_glare_fcv_struct(&frames, "cam").unwrap().unwrap();
    let general = create_curve_asset(CurveKind::Glare, &frames, "cam").unwrap().unwrap();
    assert_eq!(named.name, general.name);
    assert_eq!(named.filepath, general.filepath);
    assert_eq!(named.data, general.data);
    assert_eq!(
        named.data,
        b"FCURVE_TYPE_GLARE,\r\nFCURVE_INTERPOLATION_CONSTRAINT,\r\n2,\r\n1,0.800000,0.100000,1.500000,\r\n3,0.800000,0.100000,1.500000,\r\n".to_vec()
    );
}

#[test]
fn a_curve_without_samples_has_no_asset() {
    let frames = vec![Frame::new("100".to_string()), Frame::new("200".to_string())];
    assert!(create_glare_fcv_struct(&frames, "cam").unwrap().is_none());
    assert!(create_softfocus_fcv_struct(&frames, "cam").unwrap().is_none());
    assert!(create_dof_fcv_struct(&frames, "cam").unwrap().is_none());
    assert!(create_brightrate_fcv_struct(&frames, "cam").unwrap().is_none());
    assert!(create_glare_fcv_struct(&Vec::new(), "cam").unwrap().is_none());
    assert!(create_rows_asset(CurveKind::Glare, &Vec::new(), "cam").unwrap().is_none());
}

#[test]
fn a_curve_that_cannot_be_written_has_no_asset() {
    assert_eq!(create_rows_asset(CurveKind::Glare, &one_row("100", None), "cam").unwrap_err(), DataError::Number);
    assert_eq!(
        create_rows_asset(CurveKind::DepthOfField, &one_row("one", Some(1.0)), "cam").unwrap_err(),
        DataError::FrameIndex
    );
    let mut unreadable = frame_with_all("100");
    unreadable.p_softfocus[0].intensity = "strong".to_string();
    let frames = vec![unreadable];
    assert_eq!(
        create_softfocus_fcv_struct(&frames, "cam").unwrap_err(),
        DataError::Number
    );
    let frames = vec![frame_with_all("first")];
    assert_eq!(
        create_dof_fcv_struct(&frames, "cam").unwrap_err(),
        DataError::FrameIndex
    );
}

#[test]
fn the_brightness_rate_asset_of_one_frame() {
    let xml = "<anm><frame no=\"100\"><setting><param><p_gp name=\"bgbout\" value=\"0.75,ignored\"/></param></setting></frame></anm>";
    let frames = get_frame_settings(xml).unwrap();
    let asset = create_brightrate_fcv_struct(&frames, "scene")
        .unwrap()
        .unwrap();
    assert_eq!(
        asset.data,
        b"FCURVE_TYPE_BRIGHT_RATE,\r\nFCURVE_INTERPOLATION_CONSTRAINT,\r\n1,\r\n1,0.750000,\r\n".to_vec()
    );
    assert_eq!(asset.name, "scene_bright_rate");
    let mut pages: Vec<AssetPage> = Vec::new();
    create_fcv_xfbin(&mut pages, &frames, "scene").unwrap();
    assert_eq!(pages.len(), 3);
    assert_eq!(pages[0].structs.len(), 1);
    assert_eq!(pages[0].structs[0].name, "scene_bright_rate");
    assert_eq!(pages[0].structs[0].data, asset.data);
    assert_eq!(pages[1].structs[0].name, "scene_zrange");
    assert_eq!(pages[2].structs[0].name, "scene_bcadjustments");
}

#[test]
fn without_the_brightness_parameter_there_is_no_brightness_asset() {
    let xml = "<anm><frame no=\"100\"><setting><param><p_gp name=\"other\" value=\"0.75,ignored\"/></param></setting></frame></anm>";
    let frames = get_frame_settings(xml).unwrap();
    assert!(create_brightrate_fcv_struct(&frames, "scene")
        .unwrap()
        .is_none());
    let mut pages: Vec<AssetPage> = Vec::new();
    create_fcv_xfbin(&mut pages, &frames, "scene").unwrap();
    assert_eq!(pages.len(), 2);
    assert!(pages.iter().all(|page| page.structs.iter().all(|asset| asset.name != "scene_bright_rate")));
}

#[test]
fn no_frames_give_the_two_constant_curves() {
    let frames = get_frame_settings("<anm></anm>").unwrap();
    assert!(frames.is_empty());
    let mut pages: Vec<AssetPage> = Vec::new();
    create_fcv_xfbin(&mut pages, &frames, "empty").unwrap();
    assert_eq!(pages.len(), 2);
    assert_eq!(pages[0].structs.len(), 1);
    assert_eq!(pages[0].structs[0].name, "empty_zrange");
    assert_eq!(pages[0].structs[0].filepath, "Z:/anm/empty/fcv/empty_zrange.fcv");
    assert_eq!(pages[0].structs[0].data, ZRANGE.as_bytes().to_vec());
    assert_eq!(pages[1].structs.len(), 1);
    assert_eq!(pages[1].structs[0].name, "empty_bcadjustments");
    assert_eq!(pages[1].structs[0].filepath, "Z:/anm/empty/fcv/empty_bcadjustments.fcv");
    assert_eq!(pages[1].structs[0].data, BCADJUSTMENTS.as_bytes().to_vec());
}

#[test]
fn frames_without_glare_give_no_glare_page() {
    let xml = "<anm><frame no=\"100\"><setting><param><p_softfocus intensity=\"1\"/></param></setting></frame><frame no=\"200\"></frame></anm>";
    let frames = get_frame_settings(xml).unwrap();
    let mut pages: Vec<AssetPage> = Vec::new();
    create_fcv_xfbin(&mut pages, &frames, "cam").unwrap();
    let names: Vec<&str> = pages.iter().map(|page| page.structs[0].name.as_str()).collect();
    assert_eq!(names, vec!["cam_softfocus", "cam_zrange", "cam_bcadjustments"]);
}

#[test]
fn the_pages_come_in_a_fixed_order() {
    let xml = "<anm>\n<frame no=\"0\"><setting><param>\n<p_gp name=\"bgbout\" value=\"1.0\"/>\n<p_dof focusDistance=\"10\" nearDistance=\"1\" farDistance=\"100\" blurMaxFar=\"0.5\" blurEdge=\"0.25\"/>\n</param></setting></frame>\n<frame no=\"150\"><setting><param>\n<p_softfocus intensity=\"0.3\"/>\n<p_glare threshold=\"0.8\" subtractionColor=\"0.1\" compositionIntensity=\"1.5\"/>\n</param></setting></frame>\n</anm>";
    let frames = get_frame_settings(xml).unwrap();
    let mut pages = vec![make_page(make_asset("kept", "before", "x"))];
    create_fcv_xfbin(&mut pages, &frames, "cut").unwrap();
    let names: Vec<&str> = pages.iter().map(|page| page.structs[0].name.as_str()).collect();
    assert_eq!(
        names,
        vec!["kept_before", "cut_glare", "cut_softfocus", "cut_dof", "cut_bright_rate", "cut_zrange", "cut_bcadjustments"]
    );
    assert!(pages.iter().all(|page| page.structs.len() == 1));
    assert_eq!(
        pages[1].structs[0].data,
        b"FCURVE_TYPE_GLARE,\r\nFCURVE_INTERPOLATION_CONSTRAINT,\r\n1,\r\n1,0.800000,0.100000,1.500000,\r\n".to_vec()
    );
    assert_eq!(
        pages[2].structs[0].data,
        b"FCURVE_TYPE_SOFTFOCUS,\r\nFCURVE_INTERPOLATION_CONSTRAINT,\r\n1,\r\n1,0.300000,\r\n".to_vec()
    );
    assert_eq!(
        pages[3].structs[0].data,
        b"FCURVE_TYPE_DOF,\r\nFCURVE_INTERPOLATION_CONSTRAINT,\r\n1,\r\n0,10.000000,1.000000,100.000000,0.500000,0.250000,\r\n".to_vec()
    );
    assert_eq!(
        pages[4].structs[0].data,
        b"FCURVE_TYPE_BRIGHT_RATE,\r\nFCURVE_INTERPOLATION_CONSTRAINT,\r\n1,\r\n0,1.000000,\r\n".to_vec()
    );
}

#[test]
fn a_failure_leaves_the_pages_as_they_were() {
    let mut frame = frame_with_all("100");
    frame.p_gp[0].value = "bright".to_string();
    let frames = vec![frame];
    let mut pages = vec![make_page(make_asset("kept", "before", "x"))];
    assert_eq!(
        create_fcv_xfbin(&mut pages, &frames, "cam"),
        Err(DataError::Number)
    );
    assert_eq!(pages.len(), 1);
    assert_eq!(pages[0].structs[0].name, "kept_before");
}

#[test]
fn the_failure_of_the_earlier_curve_is_reported() {
    let mut first = Frame::new("x".to_string());
    first.p_softfocus.push(PSoftFocus { intensity: "1".to_string() });
    let mut second = frame_with_all("100");
    second.p_softfocus.clear();
    second.p_dof[0].blur_edge = "soft".to_string();
    let frames = vec![first, second];
    let mut pages: Vec<AssetPage> = Vec::new();
    assert_eq!(create_fcv_xfbin(&mut pages, &frames, "cam"), Err(DataError::FrameIndex));
    assert!(pages.is_empty());
    assert_eq!(create_dof_fcv_struct(&frames, "cam").unwrap_err(), DataError::Number);
}
