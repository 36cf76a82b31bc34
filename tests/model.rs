use mpc_keygroup_creator::{
    InclusiveRange, Keygroup, KeygroupProgram, Layer, LayerFile, LayerVelocityMode,
    LayeringModeSelector, SampleFile, StaticIterable,
};

fn layer(file: &str, root: Option<u8>) -> Option<Layer> {
    Some(Layer::new(file.to_string(), root, InclusiveRange::new(0, 127)))
}

fn velocities(kg: &Keygroup) -> Vec<Option<(u8, u8)>> {
    kg.layers.iter().map(|l| l.as_ref().map(|l| (l.velocity.start, l.velocity.end))).collect()
}

#[test]
fn layer_velocity_automatic_and_unison() {
    let cases: Vec<([bool; 4], Vec<Option<(u8, u8)>>)> = vec![
        ([false, false, false, false], vec![None, None, None, None]),
        ([true, false, false, false], vec![Some((0, 127)), None, None, None]),
        ([true, true, false, false], vec![Some((0, 63)), Some((64, 127)), None, None]),
        ([true, false, true, false], vec![Some((0, 63)), None, Some((64, 127)), None]),
        ([true, true, true, false], vec![Some((0, 41)), Some((42, 84)), Some((85, 127)), None]),
        (
            [true, true, true, true],
            vec![Some((0, 31)), Some((32, 63)), Some((64, 95)), Some((96, 127))],
        ),
    ];
    for (populated, expected) in cases {
        let slot = |i: usize| if populated[i] { layer("a.wav", Some(60)) } else { None };
        let mut kg = Keygroup::new(Some(InclusiveRange::new(45, 57)), [slot(0), slot(1), slot(2), slot(3)]);
        kg.set_velocity_layer_mode(&LayerVelocityMode::Automatic);
        assert_eq!(velocities(&kg), expected);
        kg.set_velocity_layer_mode(&LayerVelocityMode::Unison);
        let unison: Vec<Option<(u8, u8)>> =
            populated.iter().map(|p| if *p { Some((0, 127)) } else { None }).collect();
        assert_eq!(velocities(&kg), unison);
        assert_eq!(kg.range, Some(InclusiveRange::new(45, 57)));
    }
}

#[test]
fn velocity_mode_defaults_and_names() {
    assert_eq!(LayerVelocityMode::default(), LayerVelocityMode::Automatic);
    assert_eq!(LayerVelocityMode::Automatic.name(), "Automatic");
    assert_eq!(LayerVelocityMode::Unison.name(), "Unison");
}

#[test]
fn keygroup_layer_helpers() {
    let kg = Keygroup::new(None, [None, layer("b.wav", Some(50)), None, layer("c.wav", None)]);
    assert_eq!(kg.layer_count(), 2);
    assert_eq!(kg.first_assigned_layer().map(|l| l.file.clone()), Some("b.wav".to_string()));
    let empty = Keygroup::new(None, [None, None, None, None]);
    assert!(empty.first_assigned_layer().is_none());
    let single = Keygroup::from_layer(Layer::new("d.wav".to_string(), Some(3), InclusiveRange::new(0, 127)));
    assert_eq!(single.layer_count(), 1);
    assert!(single.range.is_none());
}

fn layer_file(file: &str, root: Option<u8>, slot: usize) -> LayerFile {
    LayerFile::from_sample_file(SampleFile { file: file.to_string(), root }, slot)
}

fn program_from(files: Vec<LayerFile>) -> KeygroupProgram {
    let mut program = KeygroupProgram::new("Test".to_string());
    program.insert_layer_files(files);
    program
}

#[test]
fn insert_groups_files_of_one_root() {
    let program = program_from(vec![
        layer_file("C3-soft.wav", Some(48), 0),
        layer_file("E3.wav", Some(52), 0),
        layer_file("C3-hard.wav", Some(48), 1),
        layer_file("mystery.wav", None, 0),
    ]);
    assert_eq!(program.keygroups.len(), 3);
    let first = &program.keygroups[0];
    assert_eq!(first.layers[0].as_ref().map(|l| l.file.as_str()), Some("C3-soft.wav"));
    assert_eq!(first.layers[1].as_ref().map(|l| l.file.as_str()), Some("C3-hard.wav"));
    assert!(first.range.is_none());
    assert_eq!(program.keygroups[2].layers[0].as_ref().map(|l| l.root), Some(None));
    assert_eq!(program.layer_count(), 2);
}

#[test]
fn sort_keygroups_by_first_populated_root() {
    let mut program = program_from(vec![
        layer_file("G3.wav", Some(55), 0),
        layer_file("mystery.wav", None, 0),
        layer_file("C3.wav", Some(48), 0),
        layer_file("E3.wav", Some(52), 1),
    ]);
    program.keygroups.push(Keygroup::new(None, [None, None, None, None]));
    program.sort_keygroups();
    let firsts: Vec<Option<String>> = program
        .keygroups
        .iter()
        .map(|kg| kg.first_assigned_layer().map(|l| l.file.clone()))
        .collect();
    assert_eq!(
        firsts,
        vec![
            None,
            Some("mystery.wav".to_string()),
            Some("C3.wav".to_string()),
            Some("E3.wav".to_string()),
            Some("G3.wav".to_string()),
        ]
    );
}

fn ranges_of(program: &KeygroupProgram) -> Vec<Option<(u8, u8)>> {
    program.keygroups.iter().map(|kg| kg.range.map(|r| (r.start, r.end))).collect()
}

#[test]
fn guess_ranges_from_primary_roots() {
    let mut program = program_from(vec![
        layer_file("A4.wav", Some(69), 0),
        layer_file("A2.wav", Some(45), 0),
        layer_file("A3.wav", Some(57), 0),
        layer_file("mystery.wav", None, 0),
    ]);
    assert!(!program.can_export());
    program.guess_ranges(500);
    assert_eq!(ranges_of(&program), vec![Some((64, 127)), Some((0, 51)), Some((52, 63)), None]);
    assert!(!program.can_export());
    program.keygroups.pop();
    assert!(program.can_export());
}

#[test]
fn guess_ranges_twice_changes_nothing() {
    let mut program = program_from(vec![
        layer_file("C2.wav", Some(36), 0),
        layer_file("G2.wav", Some(43), 0),
        layer_file("C4.wav", Some(60), 0),
    ]);
    program.guess_ranges(250);
    let once = ranges_of(&program);
    program.guess_ranges(250);
    assert_eq!(ranges_of(&program), once);
    assert_eq!(once, vec![Some((0, 37)), Some((38, 47)), Some((48, 127))]);
}

#[test]
fn program_velocity_mode_applies_to_all_keygroups() {
    let mut program = program_from(vec![
        layer_file("C3-a.wav", Some(48), 0),
        layer_file("C3-b.wav", Some(48), 1),
        layer_file("E3.wav", Some(52), 0),
    ]);
    program.set_velocity_layer_mode(&LayerVelocityMode::Automatic);
    assert_eq!(velocities(&program.keygroups[0]), vec![Some((0, 63)), Some((64, 127)), None, None]);
    assert_eq!(velocities(&program.keygroups[1]), vec![Some((0, 127)), None, None, None]);
}

#[test]
fn empty_program_counts() {
    let program = KeygroupProgram::new("Empty".to_string());
    assert_eq!(program.layer_count(), 0);
    assert!(program.can_export());
}

#[test]
fn all_pitches_and_modes() {
    let pitches = <u8 as StaticIterable>::iter();
    assert_eq!(pitches.len(), 128);
    assert_eq!(pitches[0], 0);
    assert_eq!(pitches[127], 127);
    assert_eq!(
        <LayerVelocityMode as StaticIterable>::iter(),
        vec![LayerVelocityMode::Automatic, LayerVelocityMode::Unison]
    );
}

#[test]
fn mode_choice_needs_two_layers() {
    let mut selector = LayeringModeSelector::new(LayerVelocityMode::Automatic, 1);
    assert!(!selector.offers_choice());
    selector = LayeringModeSelector::new(LayerVelocityMode::Automatic, 2);
    assert!(selector.offers_choice());
    selector.select(LayerVelocityMode::Unison);
    assert_eq!(selector.layer_mode, LayerVelocityMode::Unison);
    assert_eq!(selector.layer_count, 2);
}

#[test]
fn update_drops_empty_keygroups_and_reguesses_on_change() {
    let mut program = program_from(vec![
        layer_file("A2.wav", Some(45), 0),
        layer_file("A3.wav", Some(57), 0),
    ]);
    program.guess_ranges(500);
    assert_eq!(ranges_of(&program), vec![Some((0, 51)), Some((52, 127))]);

    let mut edited: Vec<Keygroup> = program.keygroups.clone();
    edited.push(Keygroup::default());
    program.update(0, edited, 0);
    assert_eq!(program.keygroups.len(), 2);
    assert_eq!(ranges_of(&program), vec![Some((0, 51)), Some((52, 127))]);

    let mut edited: Vec<Keygroup> = program.keygroups.clone();
    edited[1].layers[0] = layer("A4.wav", Some(69));
    program.update(0, edited, 0);
    assert_eq!(ranges_of(&program), vec![Some((0, 45)), Some((46, 127))]);
}

#[test]
fn defaults() {
    let program = KeygroupProgram::default();
    assert_eq!(program.name, "My Keygroup Program");
    assert!(program.keygroups.is_empty());
    let kg = Keygroup::default();
    assert!(kg.range.is_none());
    assert_eq!(kg.layer_count(), 0);
    let layer = Layer::default();
    assert_eq!(layer.file, "");
    assert_eq!(layer.root, None);
    assert_eq!(layer.velocity, InclusiveRange::new(0, 127));
}

#[test]
fn keygroup_from_file_reads_the_root() {
    let kg = Keygroup::from_file("Strings-E2.wav".to_string());
    assert!(kg.range.is_none());
    let layer = kg.layers[0].as_ref().unwrap();
    assert_eq!(layer.root, Some(40));
    assert_eq!(layer.velocity, InclusiveRange::new(0, 127));
    assert!(kg.layers[1].is_none() && kg.layers[2].is_none() && kg.layers[3].is_none());
    assert_eq!(Layer::from_file("nope.wav".to_string()).root, None);
}

#[test]
fn sort_layer_moves_samples_to_the_range_of_their_root() {
    let mut program = program_from(vec![
        layer_file("A2.wav", Some(45), 0),
        layer_file("A3.wav", Some(57), 0),
    ]);
    program.keygroups[0].layers[1] = layer("C4-soft.wav", Some(60));
    program.keygroups[1].layers[1] = layer("E2-soft.wav", Some(40));
    program.keygroups.push(Keygroup::new(None, [None, layer("nope.wav", None), None, None]));
    program.guess_ranges(500);
    program.sort_layer(1);
    let slot1: Vec<Option<String>> = program
        .keygroups
        .iter()
        .map(|kg| kg.layers[1].as_ref().map(|l| l.file.clone()))
        .collect();
    assert_eq!(
        slot1,
        vec![Some("E2-soft.wav".to_string()), Some("C4-soft.wav".to_string()), Some("nope.wav".to_string())]
    );
}

#[test]
fn sort_layer_zero_sorts_keygroups_first() {
    let mut program = program_from(vec![layer_file("A3.wav", Some(57), 0), layer_file("A2.wav", Some(45), 0)]);
    program.sort_layer(0);
    let firsts: Vec<String> =
        program.keygroups.iter().map(|kg| kg.layers[0].as_ref().unwrap().file.clone()).collect();
    assert_eq!(firsts, vec!["A2.wav".to_string(), "A3.wav".to_string()]);
}

#[test]
fn add_files_fills_empty_slots_and_skips_known_files() {
    let mut program = program_from(vec![layer_file("A2.wav", Some(45), 0), layer_file("A3.wav", Some(57), 0)]);
    program.add_files(1, vec!["C4-soft.wav".to_string()]);
    assert_eq!(program.keygroups[0].layers[1].as_ref().map(|l| (l.file.as_str(), l.root)), Some(("C4-soft.wav", Some(60))));
    program.add_files(1, vec!["C4-soft.wav".to_string(), "nope.wav".to_string(), "D1.wav".to_string()]);
    assert_eq!(program.keygroups.len(), 3);
    assert_eq!(program.keygroups[1].layers[1].as_ref().map(|l| (l.file.as_str(), l.root)), Some(("nope.wav", None)));
    let added = &program.keygroups[2];
    assert!(added.range.is_none());
    assert_eq!(added.layers[1].as_ref().map(|l| (l.file.as_str(), l.root)), Some(("D1.wav", Some(26))));
    assert!(added.layers[0].is_none());
}

#[test]
fn first_assigned_layer_mut_changes_the_first_populated_slot() {
    let mut kg = Keygroup::new(None, [None, layer("b.wav", Some(50)), layer("c.wav", Some(51)), None]);
    if let Some(l) = kg.first_assigned_layer_mut() {
        l.root = Some(52);
    }
    assert_eq!(kg.layers[1].as_ref().map(|l| l.root), Some(Some(52)));
    assert_eq!(kg.layers[2].as_ref().map(|l| l.root), Some(Some(51)));
    let mut empty = Keygroup::default();
    assert!(empty.first_assigned_layer_mut().is_none());
}
