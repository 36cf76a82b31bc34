//! Samples and the layers that hold them.
use vstd::prelude::*;

use crate::parse::{as_int, file_pitch, parse_pitch};
use crate::range::{InclusiveRange, MAX_PITCH};

verus! {

/// How the velocity range is shared among the layers of a keygroup.
#[derive(Debug, Clone, Copy, PartialEq, Eq, Structural)]
pub enum LayerVelocityMode {
    /// Each layer gets its own slice of the velocity range.
    Automatic,
    /// Every layer plays over the whole velocity range.
    Unison,
}

impl LayerVelocityMode {
    /// The mode's display name.
    pub fn name(&self) -> (r: &'static str)
        ensures
            *self == LayerVelocityMode::Automatic ==> r@ == "Automatic"@,
            *self == LayerVelocityMode::Unison ==> r@ == "Unison"@,
    {
        proof {
            reveal_strlit("Automatic");
            reveal_strlit("Unison");
        }
        match self {
            LayerVelocityMode::Automatic => "Automatic",
            LayerVelocityMode::Unison => "Unison",
        }
    }
}

impl Default for LayerVelocityMode {
    fn default() -> (r: Self)
        ensures
            r == LayerVelocityMode::Automatic,
    {
        LayerVelocityMode::Automatic
    }
}

/// The choice of a velocity mode, offered for keygroups of several layers.
#[derive(Debug, Clone, Copy, PartialEq, Eq, Structural)]
pub struct LayeringModeSelector {
    pub layer_mode: LayerVelocityMode,
    pub layer_count: usize,
}

impl LayeringModeSelector {
    pub fn new(layer_mode: LayerVelocityMode, layer_count: usize) -> (r: LayeringModeSelector)
        ensures
            r == (LayeringModeSelector { layer_mode, layer_count }),
    {
        LayeringModeSelector { layer_mode, layer_count }
    }

    /// Whether there is a choice to offer: with fewer than two layers both
    /// modes give the same ranges.
    pub fn offers_choice(&self) -> (r: bool)
        ensures
            r == (self.layer_count >= 2),
    {
        self.layer_count >= 2
    }

    /// Takes the mode the user picked.
    pub fn select(&mut self, mode: LayerVelocityMode)
        ensures
            *final(self) == (LayeringModeSelector { layer_mode: mode, ..*old(self) }),
    {
        self.layer_mode = mode;
    }
}

/// The full velocity range.
pub open spec fn full_velocity() -> InclusiveRange {
    InclusiveRange { start: 0, end: MAX_PITCH }
}

/// One sample of a keygroup, played over a velocity range.
#[derive(Debug, PartialEq, Eq)]
pub struct Layer {
    /// Sample file name.
    pub file: String,
    /// Root pitch, `None` while it is not known.
    pub root: Option<u8>,
    /// Velocity range where this layer plays.
    pub velocity: InclusiveRange,
}

impl Clone for Layer {
    fn clone(&self) -> (r: Self)
        ensures
            r == *self,
    {
        Layer { file: self.file.clone(), root: self.root, velocity: self.velocity }
    }
}

impl Layer {
    /// A layer for a file, with the root read from its name and the full
    /// velocity range.
    pub fn from_file(file: String) -> (r: Layer)
        ensures
            r.file == file,
            as_int(r.root) == file_pitch(file@),
            r.velocity == full_velocity(),
    {
        let root = parse_pitch(file.as_str());
        Layer { file, root, velocity: InclusiveRange { start: 0, end: MAX_PITCH } }
    }

    pub fn new(file: String, root: Option<u8>, velocity: InclusiveRange) -> (r: Layer)
        ensures
            r == (Layer { file, root, velocity }),
    {
        Layer { file, root, velocity }
    }
}

impl Default for Layer {
    /// No file, no root, the full velocity range.
    fn default() -> (r: Layer)
        ensures
            r.file@ == Seq::<char>::empty(),
            r.root is None,
            r.velocity == full_velocity(),
    {
        Layer { file: String::new(), root: None, velocity: InclusiveRange { start: 0, end: MAX_PITCH } }
    }
}

/// A sample file with the root pitch read from its name.
#[derive(Debug, PartialEq, Eq)]
pub struct SampleFile {
    /// Sample file name.
    pub file: String,
    /// Root pitch, `None` while it is not known.
    pub root: Option<u8>,
}

impl Clone for SampleFile {
    fn clone(&self) -> (r: Self)
        ensures
            r == *self,
    {
        SampleFile { file: self.file.clone(), root: self.root }
    }
}

impl SampleFile {
    /// A sample file whose root is read from its name.
    pub fn from_file(file: String) -> (r: SampleFile)
        ensures
            r.file == file,
            as_int(r.root) == file_pitch(file@),
    {
        let mut sample = SampleFile { file, root: None };
        sample.guess_root();
        sample
    }

    /// Reads the root from the file name; where nothing can be read the
    /// root is left as it was.
    pub fn guess_root(&mut self)
        ensures
            final(self).file == old(self).file,
            file_pitch(old(self).file@) is Some ==> as_int(final(self).root) == file_pitch(
                old(self).file@,
            ),
            file_pitch(old(self).file@) is None ==> final(self).root == old(self).root,
    {
        match parse_pitch(self.file.as_str()) {
            Some(root) => {
                self.root = Some(root);
            },
            None => {},
        }
    }
}

/// A sample file with its root, meant for one layer slot.
#[derive(Debug, PartialEq, Eq)]
pub struct LayerFile {
    /// Sample file name.
    pub file: String,
    /// Root pitch, `None` while it is not known.
    pub root: Option<u8>,
    /// Destination layer slot.
    pub layer: usize,
}

impl Clone for LayerFile {
    fn clone(&self) -> (r: Self)
        ensures
            r == *self,
    {
        LayerFile { file: self.file.clone(), root: self.root, layer: self.layer }
    }
}

impl LayerFile {
    pub fn from_sample_file(file: SampleFile, layer: usize) -> (r: LayerFile)
        ensures
            r == (LayerFile { file: file.file, root: file.root, layer }),
    {
        LayerFile { file: file.file, root: file.root, layer }
    }
}

} // verus!
