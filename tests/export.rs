use mpc_keygroup_creator::{
    make_program, make_program_with_template, program_fields, sample_name, to_decimal,
    ExportError, InclusiveRange, Keygroup, KeygroupProgram, Layer, REFERENCE_TEMPLATE,
};

fn hello_keygroups() -> Vec<Keygroup> {
    vec![Keygroup::new(
        Some(InclusiveRange::new(0, 127)),
        [
            Some(Layer::new("HELLO.wav".to_string(), Some(47), InclusiveRange::new(25, 56))),
            None,
            None,
            None,
        ],
    )]
}

fn child_text(e: &xmltree::Element, path: &[&str]) -> Option<String> {
    let mut current = e;
    for name in path {
        current = current.get_child(*name)?;
    }
    current.get_text().map(|t| t.to_string())
}

#[test]
fn make_program_test() {
    let program = make_program("Hello World", &hello_keygroups())
        .expect("Could not make the program at all");
    assert_eq!(
        program
            .get_child("Program")
            .expect("no program root")
            .get_child("ProgramName")
            .expect("no program name")
            .get_text()
            .expect("no program text"),
        "Hello World"
    );
    let layer = program
        .get_child("Program")
        .expect("no program root")
        .get_child("Instruments")
        .expect("no instrument list")
        .get_child("Instrument")
        .expect("no instrument in the list")
        .get_child("Layers")
        .expect("no layer list")
        .get_child("Layer")
        .expect("no layer in the list");
    assert_eq!(layer.get_child("SampleFile").expect("no sample file").get_text().unwrap(), "HELLO.wav");
}

#[test]
fn export_make_program_test() {
    let program = make_program("Hello World", &hello_keygroups())
        .expect("Could not make the program at all");
    let layer = program
        .get_child("Program")
        .expect("no program root")
        .get_child("Instruments")
        .expect("no instrument list")
        .get_child("Instrument")
        .expect("no instrument in the list")
        .get_child("Layers")
        .expect("no layer list")
        .get_child("Layer")
        .expect("no layer in the list");
    assert_eq!(layer.get_child("SampleFile").expect("no sample file").get_text().unwrap(), "HELLO.wav");
    assert_eq!(layer.get_child("VelStart").expect("no velocity start").get_text().unwrap(), "25");
    assert_eq!(layer.get_child("VelEnd").expect("no velocity end").get_text().unwrap(), "56");
}

#[test]
fn exported_fields_of_a_keygroup() {
    let program = make_program("Hello World", &hello_keygroups()).unwrap();
    let instrument = ["Program", "Instruments", "Instrument"];
    assert_eq!(child_text(&program, &["Program", "KeygroupNumKeygroups"]), Some("1".to_string()));
    let kg = program.get_child("Program").unwrap().get_child("Instruments").unwrap().get_child("Instrument").unwrap();
    assert_eq!(kg.attributes.get("number").map(|s| s.as_str()), Some("1"));
    assert_eq!(child_text(&program, &[instrument[0], instrument[1], instrument[2], "LowNote"]), Some("0".to_string()));
    assert_eq!(child_text(&program, &[instrument[0], instrument[1], instrument[2], "HighNote"]), Some("127".to_string()));
    let layer = kg.get_child("Layers").unwrap().get_child("Layer").unwrap();
    assert_eq!(layer.get_child("RootNote").unwrap().get_text().unwrap(), "48");
    assert_eq!(layer.get_child("SampleName").unwrap().get_text().unwrap(), "HELLO");
}

#[test]
fn one_instrument_per_keygroup_numbered_from_one() {
    let mut keygroups = hello_keygroups();
    keygroups.push(Keygroup::new(
        Some(InclusiveRange::new(60, 72)),
        [None, Some(Layer::new("dir/Second.A3.wav".to_string(), Some(57), InclusiveRange::new(0, 127))), None, None],
    ));
    let program = make_program("Two", &keygroups).unwrap();
    let instruments = program.get_child("Program").unwrap().get_child("Instruments").unwrap();
    let list: Vec<&xmltree::Element> = instruments
        .children
        .iter()
        .filter_map(|c| c.as_element())
        .filter(|e| e.name == "Instrument")
        .collect();
    assert_eq!(list.len(), 2);
    assert_eq!(list[1].attributes.get("number").map(|s| s.as_str()), Some("2"));
    assert_eq!(list[1].get_child("LowNote").unwrap().get_text().unwrap(), "60");
    let layers: Vec<&xmltree::Element> =
        list[1].get_child("Layers").unwrap().children.iter().filter_map(|c| c.as_element()).collect();
    assert_eq!(layers.len(), 4);
    assert_eq!(layers[0].get_child("SampleFile").unwrap().get_text(), None);
    assert_eq!(layers[1].get_child("SampleName").unwrap().get_text().unwrap(), "Second.A3");
    assert_eq!(layers[1].get_child("RootNote").unwrap().get_text().unwrap(), "58");
}

#[test]
fn export_missing_range() {
    let keygroups = vec![Keygroup::new(None, [Some(Layer::new("a.wav".to_string(), Some(1), InclusiveRange::new(0, 127))), None, None, None])];
    assert_eq!(make_program("x", &keygroups).unwrap_err(), ExportError::MissingRange);
}

#[test]
fn export_missing_root() {
    let keygroups = vec![Keygroup::new(
        Some(InclusiveRange::new(0, 127)),
        [None, None, Some(Layer::new("a.wav".to_string(), None, InclusiveRange::new(0, 127))), None],
    )];
    assert_eq!(make_program("x", &keygroups).unwrap_err(), ExportError::MissingRoot);
}

#[test]
fn export_malformed_template() {
    assert_eq!(
        make_program_with_template("<Program>", "x", &hello_keygroups()).unwrap_err(),
        ExportError::TemplateParse
    );
}

#[test]
fn export_template_without_program() {
    assert_eq!(
        make_program_with_template("<Root><Other/></Root>", "x", &hello_keygroups()).unwrap_err(),
        ExportError::MissingNode
    );
}

#[test]
fn export_template_with_three_layers() {
    let template = REFERENCE_TEMPLATE.replacen("<Layer number=\"4\">", "<Unused number=\"4\">", 1).replacen(
        "<KeyTrack>True</KeyTrack></Layer>\n        </Layers>",
        "<KeyTrack>True</KeyTrack></Unused>\n        </Layers>",
        1,
    );
    assert_eq!(
        make_program_with_template(&template, "x", &hello_keygroups()).unwrap_err(),
        ExportError::LayerCount
    );
}

#[test]
fn program_export_writes_the_document() {
    let mut program = KeygroupProgram::new("Hello World".to_string());
    program.keygroups = hello_keygroups();
    let bytes = program.export().unwrap();
    let text = String::from_utf8(bytes).unwrap();
    assert!(text.contains("<ProgramName>Hello World</ProgramName>"));
    assert!(text.contains("<SampleFile>HELLO.wav</SampleFile>"));
    let parsed = xmltree::Element::parse(text.as_bytes()).unwrap();
    assert_eq!(child_text(&parsed, &["Program", "ProgramName"]), Some("Hello World".to_string()));
}

#[test]
fn fields_of_a_program() {
    let fields = program_fields("Hello World", &hello_keygroups()).unwrap();
    assert_eq!(fields.name, "Hello World");
    assert_eq!(fields.keygroup_count, "1");
    let layer = fields.instruments[0].layers[0].as_ref().unwrap();
    assert_eq!(layer.sample_file, "HELLO.wav");
    assert_eq!(layer.sample_name, "HELLO");
    assert_eq!(layer.root_note, "48");
    assert_eq!(layer.velocity_start, "25");
    assert_eq!(layer.velocity_end, "56");
    assert!(fields.instruments[0].layers[1].is_none());
}

#[test]
fn decimal_text() {
    assert_eq!(to_decimal(0), "0");
    assert_eq!(to_decimal(7), "7");
    assert_eq!(to_decimal(128), "128");
    assert_eq!(to_decimal(1000), "1000");
}

#[test]
fn sample_names() {
    let some = |s: &str| Some(s.to_string());
    assert_eq!(sample_name("HELLO.wav"), some("HELLO"));
    assert_eq!(sample_name("dir/sub/Piano C3.WAV"), some("Piano C3"));
    assert_eq!(sample_name("a.b.wav"), some("a.b"));
    assert_eq!(sample_name(".hidden"), some(".hidden"));
    assert_eq!(sample_name("noext"), some("noext"));
    assert_eq!(sample_name("a."), some("a"));
    assert_eq!(sample_name(""), None);
    assert_eq!(sample_name("dir/.."), None);
    assert_eq!(sample_name("dir/"), None);
}

#[test]
fn export_missing_sample_name() {
    let keygroups = vec![Keygroup::new(
        Some(InclusiveRange::new(0, 127)),
        [Some(Layer::new("samples/".to_string(), Some(40), InclusiveRange::new(0, 127))), None, None, None],
    )];
    assert_eq!(make_program("x", &keygroups).unwrap_err(), ExportError::MissingSampleName);
}

#[test]
fn export_template_without_root_element() {
    assert_eq!(make_program_with_template("", "x", &hello_keygroups()).unwrap_err(), ExportError::TemplateParse);
    assert_eq!(
        make_program_with_template("<!-- nothing -->", "x", &hello_keygroups()).unwrap_err(),
        ExportError::TemplateParse
    );
}
