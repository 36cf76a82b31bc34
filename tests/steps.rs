use mpc_keygroup_creator::{
    FormAction, LayerFile, LayerSelectForm, LayerSelectFormMessages, RootNotesForm,
    SampleFile, StepAddSamples, StepSelectLayers,
};

fn names(list: &[&str]) -> Vec<String> {
    list.iter().map(|s| s.to_string()).collect()
}

fn roots(samples: &[SampleFile]) -> Vec<Option<u8>> {
    samples.iter().map(|s| s.root).collect()
}

#[test]
fn add_samples_and_shift_octaves() {
    let mut step = StepAddSamples::from_files(names(&["A2.wav", "nope.wav", "Bell 120.wav"]));
    assert_eq!(roots(&step.sample_files), vec![Some(45), None, Some(120)]);
    step.increase_octave();
    assert_eq!(roots(&step.sample_files), vec![Some(57), None, Some(127)]);
    step.set_root(1, 5);
    step.decrease_octave();
    assert_eq!(roots(&step.sample_files), vec![Some(45), Some(0), Some(115)]);
    step.add_files(names(&["THMB40.wav"]));
    assert_eq!(step.sample_files.len(), 4);
    assert_eq!(step.sample_files[3].root, Some(40));
}

#[test]
fn add_samples_guess_roots_as_a_batch() {
    let mut step = StepAddSamples::from_files(names(&["x36 C2.wav", "x38 C2.wav", "nope.wav"]));
    assert_eq!(roots(&step.sample_files), vec![Some(36), Some(36), None]);
    step.sample_files.pop();
    step.guess_roots();
    assert_eq!(roots(&step.sample_files), vec![Some(36), Some(38)]);
}

#[test]
fn root_notes_form_changes() {
    let mut form = RootNotesForm::from_files(names(&["C4.wav", "D4.wav"]));
    assert_eq!(roots(&form.sample_files), vec![Some(60), Some(62)]);
    form.set_root(0, 10);
    form.decrease_octave();
    assert_eq!(roots(&form.sample_files), vec![Some(0), Some(50)]);
    form.increase_octave();
    assert_eq!(roots(&form.sample_files), vec![Some(12), Some(62)]);
}

fn samples() -> Vec<SampleFile> {
    vec![
        SampleFile { file: "C3-a.wav".to_string(), root: Some(48) },
        SampleFile { file: "E3.wav".to_string(), root: Some(52) },
        SampleFile { file: "C3-b.wav".to_string(), root: Some(48) },
        SampleFile { file: "mystery.wav".to_string(), root: None },
    ]
}

fn slots(files: &[LayerFile]) -> Vec<usize> {
    files.iter().map(|f| f.layer).collect()
}

#[test]
fn select_layers_guess_and_changes() {
    let mut step = StepSelectLayers::from_sample_files(&samples());
    let files: Vec<&str> = step.layer_files.iter().map(|f| f.file.as_str()).collect();
    assert_eq!(files, vec!["C3-a.wav", "C3-b.wav", "E3.wav", "mystery.wav"]);
    assert_eq!(slots(&step.layer_files), vec![0, 1, 0, 0]);
    assert_eq!(step.common_layer(), None);
    step.swap_layers(0, 1);
    assert_eq!(slots(&step.layer_files), vec![1, 0, 1, 1]);
    step.set_layer(2, 3);
    assert_eq!(slots(&step.layer_files), vec![1, 0, 3, 1]);
    step.set_all_layers(2);
    assert_eq!(step.common_layer(), Some(2));
}

#[test]
fn select_layers_wraps_after_four_samples_of_one_root() {
    let many: Vec<SampleFile> = (0..6)
        .map(|i| SampleFile { file: format!("C3-{}.wav", i), root: Some(48) })
        .collect();
    let step = StepSelectLayers::from_sample_files(&many);
    assert_eq!(slots(&step.layer_files), vec![0, 1, 2, 3, 0, 1]);
}

#[test]
fn layer_select_form_messages() {
    let samples = samples();
    let mut form = LayerSelectForm::from_sample_files(&samples);
    assert_eq!(form.update(LayerSelectFormMessages::AllLayerChanged(3), &samples), FormAction::Redraw);
    assert_eq!(slots(&form.layer_files), vec![3, 3, 3, 3]);
    assert_eq!(form.update(LayerSelectFormMessages::LayerChanged(1, 0), &samples), FormAction::Redraw);
    assert_eq!(form.update(LayerSelectFormMessages::LayerChanged(9, 0), &samples), FormAction::Redraw);
    assert_eq!(slots(&form.layer_files), vec![3, 0, 3, 3]);
    assert_eq!(form.update(LayerSelectFormMessages::Swap(0, 3), &samples), FormAction::Redraw);
    assert_eq!(slots(&form.layer_files), vec![0, 3, 0, 0]);
    assert_eq!(form.update(LayerSelectFormMessages::Done, &samples), FormAction::Selected);
    assert_eq!(form.update(LayerSelectFormMessages::Reset, &samples), FormAction::Redraw);
    assert_eq!(slots(&form.layer_files), vec![0, 1, 0, 0]);
    assert_eq!(form.update(LayerSelectFormMessages::Cancel, &samples), FormAction::Cancelled);
    assert_eq!(form.layer_files[0].file, "C3-a.wav");
}

#[test]
fn select_layers_follow_name_order_within_a_root() {
    let samples = vec![
        SampleFile { file: "C3-soft.wav".to_string(), root: Some(48) },
        SampleFile { file: "C3-hard.wav".to_string(), root: Some(48) },
        SampleFile { file: "C3-mid.wav".to_string(), root: Some(48) },
        SampleFile { file: "C3-hard.wav".to_string(), root: Some(48) },
    ];
    let step = StepSelectLayers::from_sample_files(&samples);
    let files: Vec<&str> = step.layer_files.iter().map(|f| f.file.as_str()).collect();
    assert_eq!(files, vec!["C3-hard.wav", "C3-hard.wav", "C3-mid.wav", "C3-soft.wav"]);
    assert_eq!(slots(&step.layer_files), vec![0, 1, 2, 3]);
}

#[test]
fn select_layers_lists_files_by_name() {
    let samples = vec![
        SampleFile { file: "b.wav".to_string(), root: Some(50) },
        SampleFile { file: "a.wav".to_string(), root: Some(40) },
    ];
    let step = StepSelectLayers::from_sample_files(&samples);
    let files: Vec<&str> = step.layer_files.iter().map(|f| f.file.as_str()).collect();
    assert_eq!(files, vec!["a.wav", "b.wav"]);
    assert_eq!(step.layer_files[0].root, Some(40));
}
