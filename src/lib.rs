//! Turns a set of sample file names into a sampler keygroup program:
//! root pitches are read from the names, the keyboard is split into
//! keygroups around them, and the result is rendered as an XPM document.
pub mod export;
pub mod iterable;
pub mod keygroup;
pub mod layer;
pub mod parse;
pub mod program;
pub mod range;
pub mod steps;
pub mod text;

pub use export::{
    export_document, make_program, make_program_with_template, program_fields, ExportError,
    InstrumentFields, LayerFields, ProgramFields, REFERENCE_TEMPLATE,
};
pub use iterable::StaticIterable;
pub use keygroup::{Keygroup, LAYER_SLOTS};
pub use layer::{Layer, LayerFile, LayerVelocityMode, LayeringModeSelector, SampleFile};
pub use parse::{
    guess_roots, parse_letter_notation, parse_number_notation, parse_pitch, NotANote, Parsed,
    PartialFromStr,
};
pub use program::KeygroupProgram;
pub use range::{build_ranges, cut_point, InclusiveRange, MAX_PITCH, PREFERENCE_SCALE};
pub use steps::{
    FormAction, LayerSelectForm, LayerSelectFormMessages, RootNotesForm, StepAddSamples,
    StepSelectLayers,
};
pub use text::{sample_name, to_decimal};
