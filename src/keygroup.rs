//! A keygroup: a pitch range played by up to four layered samples.
use vstd::prelude::*;

use crate::layer::{full_velocity, Layer, LayerVelocityMode};
use crate::parse::{as_int, file_pitch};
use crate::range::{InclusiveRange, MAX_PITCH};

verus! {

/// Number of layer slots in a keygroup.
pub const LAYER_SLOTS: usize = 4;

/// A set of samples assigned to a pitch range of the keyboard.
#[derive(Debug, PartialEq, Eq)]
pub struct Keygroup {
    /// Pitch range where this keygroup plays, `None` until it is computed.
    pub range: Option<InclusiveRange>,
    /// The layer slots; a slot may be empty.
    pub layers: [Option<Layer>; 4],
}

impl Clone for Keygroup {
    fn clone(&self) -> (r: Self)
        ensures
            r == *self,
    {
        let layers: [Option<Layer>; 4] = [
            clone_slot(&self.layers[0]),
            clone_slot(&self.layers[1]),
            clone_slot(&self.layers[2]),
            clone_slot(&self.layers[3]),
        ];
        assert(layers =~= self.layers);
        Keygroup { range: self.range, layers }
    }
}

fn clone_slot(slot: &Option<Layer>) -> (r: Option<Layer>)
    ensures
        r == *slot,
{
    match slot {
        Some(layer) => Some(layer.clone()),
        None => None,
    }
}

impl Default for Keygroup {
    /// A keygroup with no layer and no range.
    fn default() -> (r: Keygroup)
        ensures
            r.range is None,
            r.layers@ == seq![None::<Layer>, None, None, None],
    {
        let r = Keygroup { range: None, layers: [None, None, None, None] };
        assert(r.layers@ =~= seq![None::<Layer>, None, None, None]);
        r
    }
}

/// Number of populated slots among the first `j`.
pub open spec fn populated_before(layers: Seq<Option<Layer>>, j: int) -> int
    decreases j,
{
    if j <= 0 {
        0
    } else {
        populated_before(layers, j - 1) + if layers[j - 1] is Some {
            1int
        } else {
            0int
        }
    }
}

/// Number of populated slots.
pub open spec fn populated(layers: Seq<Option<Layer>>) -> int {
    populated_before(layers, LAYER_SLOTS as int)
}

/// The `i`-th of `n` equal shares of the velocity range `[0, 127]`.
pub open spec fn velocity_share(i: int, n: int) -> InclusiveRange {
    InclusiveRange { start: (128 * i / n) as u8, end: (128 * (i + 1) / n - 1) as u8 }
}

/// The velocity range that `mode` gives the layer in slot `j`.
pub open spec fn layer_velocity(
    mode: LayerVelocityMode,
    layers: Seq<Option<Layer>>,
    j: int,
) -> InclusiveRange {
    match mode {
        LayerVelocityMode::Unison => full_velocity(),
        LayerVelocityMode::Automatic => velocity_share(populated_before(layers, j), populated(layers)),
    }
}

/// The slots after `mode` is applied: each populated slot keeps its sample
/// and root and gets its velocity range.
pub open spec fn with_velocity_mode(layers: Seq<Option<Layer>>, mode: LayerVelocityMode) -> Seq<
    Option<Layer>,
> {
    Seq::new(
        layers.len(),
        |j: int|
            match layers[j] {
                Some(l) => Some(Layer { velocity: layer_velocity(mode, layers, j), ..l }),
                None => None,
            },
    )
}

proof fn lemma_populated_bounds(layers: Seq<Option<Layer>>, j: int)
    requires
        0 <= j,
    ensures
        0 <= populated_before(layers, j) <= j,
    decreases j,
{
    if j > 0 {
        lemma_populated_bounds(layers, j - 1);
    }
}

proof fn lemma_populated_monotone(layers: Seq<Option<Layer>>, i: int, j: int)
    requires
        0 <= i <= j,
    ensures
        populated_before(layers, i) <= populated_before(layers, j),
    decreases j - i,
{
    if i < j {
        lemma_populated_monotone(layers, i, j - 1);
    }
}

/// In automatic mode the shares of `n` layers (one to four) split the
/// velocity range `[0, 127]`: the first starts at `0`, each is non-empty and
/// ends one below the start of the next, and the last ends at `127`.
pub proof fn lemma_velocity_shares_partition(n: int)
    requires
        1 <= n <= 4,
    ensures
        velocity_share(0, n).start == 0,
        velocity_share(n - 1, n).end == MAX_PITCH,
        forall|i: int| 0 <= i < n ==> #[trigger] velocity_share(i, n).start <= velocity_share(i, n).end,
        forall|i: int| 0 <= i < n - 1 ==> #[trigger] velocity_share(i, n).end + 1 == velocity_share(i + 1, n).start,
{
    assert forall|i: int| 0 <= i < n implies #[trigger] velocity_share(i, n).start <= velocity_share(i, n).end
        && velocity_share(i, n).start == 128 * i / n && velocity_share(i, n).end == 128 * (i + 1) / n - 1 by {
        assert(0 <= 128 * i / n && 128 * i / n + 32 <= 128 * (i + 1) / n && 128 * (i + 1) / n <= 128)
            by (nonlinear_arith)
            requires
                0 <= i < n,
                1 <= n <= 4,
        ;
    }
    assert forall|i: int| 0 <= i < n - 1 implies #[trigger] velocity_share(i, n).end + 1 == velocity_share(i + 1, n).start by {
        assert(1 <= 128 * (i + 1) / n <= 128) by (nonlinear_arith)
            requires
                0 <= i < n - 1,
                1 <= n <= 4,
        ;
    }
    assert(128 * n / n == 128) by (nonlinear_arith)
        requires
            1 <= n,
    ;
}

impl Keygroup {
    pub fn new(range: Option<InclusiveRange>, layers: [Option<Layer>; 4]) -> (r: Keygroup)
        ensures
            r == (Keygroup { range, layers }),
    {
        Keygroup { range, layers }
    }

    /// A keygroup with the layer of one file (see `Layer::from_file`) in the
    /// first slot and no range yet.
    pub fn from_file(file: String) -> (r: Keygroup)
        ensures
            r.range is None,
            r.layers@.len() == 4,
            r.layers@[0] matches Some(l) && l.file == file && as_int(l.root) == file_pitch(file@)
                && l.velocity == full_velocity(),
            r.layers@[1] is None && r.layers@[2] is None && r.layers@[3] is None,
    {
        Keygroup::from_layer(Layer::from_file(file))
    }

    /// A keygroup with one sample in the first slot and no range yet.
    pub fn from_layer(layer: Layer) -> (r: Keygroup)
        ensures
            r.range is None,
            r.layers@ == seq![Some(layer), None, None, None],
    {
        let r = Keygroup { range: None, layers: [Some(layer), None, None, None] };
        assert(r.layers@ =~= seq![Some(layer), None, None, None]);
        r
    }

    /// The first populated slot's layer.
    pub fn first_assigned_layer(&self) -> (r: Option<&Layer>)
        ensures
            r matches Some(l) ==> exists|j: int|
                0 <= j < 4 && self.layers@[j] == Some(*l) && populated_before(self.layers@, j) == 0,
            r is None ==> populated(self.layers@) == 0,
    {
        let mut j: usize = 0;
        while j < LAYER_SLOTS
            invariant
                j <= 4,
                populated_before(self.layers@, j as int) == 0,
            decreases 4 - j,
        {
            match &self.layers[j] {
                Some(l) => {
                    return Some(l);
                },
                None => {},
            }
            j = j + 1;
        }
        None
    }

    /// The first populated slot's layer, to change in place.
    pub fn first_assigned_layer_mut(&mut self) -> (r: Option<&mut Layer>)
        ensures
            r is None ==> populated(old(self).layers@) == 0 && *final(self) == *old(self),
            r matches Some(l) ==> exists|j: int|
                0 <= j < 4 && old(self).layers@[j] == Some(*l) && populated_before(old(self).layers@, j) == 0
                    && final(self).layers@ == old(self).layers@.update(j, Some(*final(l)))
                    && final(self).range == old(self).range,
    {
        proof {
            reveal_with_fuel(populated_before, 5);
        }
        let j: usize = if self.layers[0].is_some() {
            0
        } else if self.layers[1].is_some() {
            1
        } else if self.layers[2].is_some() {
            2
        } else if self.layers[3].is_some() {
            3
        } else {
            return None;
        };
        self.layers[j].as_mut()
    }

    /// Number of populated slots.
    pub fn layer_count(&self) -> (r: usize)
        ensures
            r == populated(self.layers@),
    {
        let mut count: usize = 0;
        let mut j: usize = 0;
        while j < LAYER_SLOTS
            invariant
                j <= 4,
                count == populated_before(self.layers@, j as int),
                count <= j,
            decreases 4 - j,
        {
            if self.layers[j].is_some() {
                count = count + 1;
            }
            j = j + 1;
        }
        count
    }

    /// Assigns the velocity ranges of the populated slots. In `Unison` mode
    /// each gets `[0, 127]`; in `Automatic` mode the `i`-th of `n` populated
    /// slots (in slot order) gets `[128 i / n, 128 (i + 1) / n - 1]`.
    pub fn set_velocity_layer_mode(&mut self, mode: &LayerVelocityMode)
        ensures
            final(self).range == old(self).range,
            final(self).layers@ == with_velocity_mode(old(self).layers@, *mode),
    {
        let ghost before = self.layers@;
        let n = self.layer_count();
        let mut index: usize = 0;
        let mut j: usize = 0;
        while j < LAYER_SLOTS
            invariant
                j <= 4,
                n == populated(before),
                index == populated_before(before, j as int),
                self.range == old(self).range,
                before == old(self).layers@,
                forall|k: int| j <= k < 4 ==> self.layers@[k] == before[k],
                forall|k: int|
                    0 <= k < j ==> self.layers@[k] == #[trigger] with_velocity_mode(before, *mode)[k],
            decreases 4 - j,
        {
            proof {
                lemma_populated_bounds(before, j as int);
                lemma_populated_bounds(before, 4);
                lemma_populated_monotone(before, j as int + 1, 4);
            }
            let velocity = match mode {
                LayerVelocityMode::Unison => InclusiveRange { start: 0, end: MAX_PITCH },
                LayerVelocityMode::Automatic => {
                    if self.layers[j].is_some() {
                        assert(index < n);
                        assert(128 * (index as int) / (n as int) <= 127) by (nonlinear_arith)
                            requires
                                index < n,
                                n <= 4,
                        ;
                        assert(1 <= 128 * (index as int + 1) / (n as int) <= 128) by (nonlinear_arith)
                            requires
                                index < n,
                                n <= 4,
                        ;
                        InclusiveRange {
                            start: (128 * index / n) as u8,
                            end: (128 * (index + 1) / n - 1) as u8,
                        }
                    } else {
                        InclusiveRange { start: 0, end: MAX_PITCH }
                    }
                },
            };
            match &mut self.layers[j] {
                Some(layer) => {
                    layer.velocity = velocity;
                    index = index + 1;
                },
                None => {},
            }
            j = j + 1;
        }
        assert(self.layers@ =~= with_velocity_mode(before, *mode));
    }
}

} // verus!
