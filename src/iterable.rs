//! Types whose values can all be listed.
use vstd::prelude::*;

use crate::layer::LayerVelocityMode;
use crate::range::MAX_PITCH;

verus! {

/// A type whose possible values can all be listed.
pub trait StaticIterable: Sized {
    /// Every value, in order.
    spec fn all_values() -> Seq<Self>;

    /// Every value, in order.
    fn iter() -> (r: Vec<Self>)
        ensures
            r@ == Self::all_values(),
    ;
}

/// Pitches: every value from `0` to `127`.
impl StaticIterable for u8 {
    open spec fn all_values() -> Seq<u8> {
        Seq::new(MAX_PITCH as nat + 1, |i: int| i as u8)
    }

    fn iter() -> (r: Vec<u8>) {
        let mut r: Vec<u8> = Vec::new();
        let mut p: u16 = 0;
        while p <= MAX_PITCH as u16
            invariant
                p <= MAX_PITCH + 1,
                r@ == Seq::new(p as nat, |i: int| i as u8),
            decreases MAX_PITCH + 1 - p,
        {
            r.push(p as u8);
            assert(r@ =~= Seq::new(p as nat + 1, |i: int| i as u8));
            p = p + 1;
        }
        r
    }
}

impl StaticIterable for LayerVelocityMode {
    open spec fn all_values() -> Seq<LayerVelocityMode> {
        seq![LayerVelocityMode::Automatic, LayerVelocityMode::Unison]
    }

    fn iter() -> (r: Vec<LayerVelocityMode>) {
        let r = vec![LayerVelocityMode::Automatic, LayerVelocityMode::Unison];
        assert(r@ =~= seq![LayerVelocityMode::Automatic, LayerVelocityMode::Unison]);
        r
    }
}

} // verus!
