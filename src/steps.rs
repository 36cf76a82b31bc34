//! The editing steps that lead from dropped files to a program: the sample
//! list with its roots, and the choice of a layer slot for each sample.
//! Each step is a state with the changes a user can make to it.
use vstd::prelude::*;

use crate::layer::{LayerFile, SampleFile};
use crate::parse::{as_int, batch_pitches, file_pitch, guess_roots, names_of};
use crate::range::MAX_PITCH;

verus! {

/// The root one octave up, capped at the highest pitch.
pub open spec fn octave_up(root: Option<u8>) -> Option<u8> {
    match root {
        Some(r) => Some(if r + 12 > MAX_PITCH { MAX_PITCH } else { (r + 12) as u8 }),
        None => None,
    }
}

/// The root one octave down, floored at `0`.
pub open spec fn octave_down(root: Option<u8>) -> Option<u8> {
    match root {
        Some(r) => Some(if r < 12 { 0u8 } else { (r - 12) as u8 }),
        None => None,
    }
}

/// The samples with each root moved by one octave.
pub open spec fn shifted(samples: Seq<SampleFile>, up: bool) -> Seq<SampleFile> {
    Seq::new(
        samples.len(),
        |i: int|
            SampleFile {
                root: if up { octave_up(samples[i].root) } else { octave_down(samples[i].root) },
                ..samples[i]
            },
    )
}

/// The samples after their roots are read again as one batch: a root that
/// the batch reads replaces the old one, the others stay.
pub open spec fn reguessed(samples: Seq<SampleFile>) -> Seq<SampleFile> {
    let pitches = batch_pitches(samples.map_values(|s: SampleFile| s.file@));
    Seq::new(
        samples.len(),
        |i: int|
            match pitches[i] {
                Some(p) => SampleFile { root: Some(p as u8), ..samples[i] },
                None => samples[i],
            },
    )
}

fn shift_octaves(samples: &mut Vec<SampleFile>, up: bool)
    ensures
        final(samples)@ == shifted(old(samples)@, up),
{
    let ghost before = samples@;
    let n = samples.len();
    let mut i: usize = 0;
    while i < n
        invariant
            n == samples@.len(),
            before.len() == n,
            i <= n,
            forall|k: int| i <= k < n ==> samples@[k] == before[k],
            forall|k: int| 0 <= k < i ==> samples@[k] == #[trigger] shifted(before, up)[k],
        decreases n - i,
    {
        let root = samples[i].root;
        let moved = match root {
            Some(r) => Some(
                if up {
                    if r as u16 + 12 > MAX_PITCH as u16 { MAX_PITCH } else { r + 12 }
                } else {
                    if r < 12 { 0 } else { r - 12 }
                },
            ),
            None => None,
        };
        samples[i].root = moved;
        i = i + 1;
    }
    assert(samples@ =~= shifted(before, up));
}

fn reguess_roots(samples: &mut Vec<SampleFile>)
    ensures
        final(samples)@ == reguessed(old(samples)@),
{
    let ghost before = samples@;
    let n = samples.len();
    let mut names: Vec<String> = Vec::new();
    let mut i: usize = 0;
    while i < n
        invariant
            n == samples@.len(),
            i <= n,
            names@.len() == i,
            forall|k: int| 0 <= k < i ==> (#[trigger] names@[k])@ == samples@[k].file@,
        decreases n - i,
    {
        names.push(samples[i].file.clone());
        i = i + 1;
    }
    assert(names_of(names@) =~= samples@.map_values(|s: SampleFile| s.file@));
    let roots = guess_roots(&names);
    let ghost pitches = batch_pitches(names_of(names@));
    assert(roots@.len() == n) by {
        assert(roots@.map_values(|o: Option<u8>| as_int(o)).len() == pitches.len());
    }
    let mut i: usize = 0;
    while i < n
        invariant
            n == samples@.len(),
            before.len() == n,
            roots@.len() == n,
            pitches == batch_pitches(before.map_values(|s: SampleFile| s.file@)),
            roots@.map_values(|o: Option<u8>| as_int(o)) == pitches,
            i <= n,
            forall|k: int| i <= k < n ==> samples@[k] == before[k],
            forall|k: int| 0 <= k < i ==> samples@[k] == #[trigger] reguessed(before)[k],
        decreases n - i,
    {
        assert(as_int(roots@[i as int]) == pitches[i as int]);
        match roots[i] {
            Some(r) => {
                samples[i].root = Some(r);
            },
            None => {},
        }
        i = i + 1;
    }
    assert(samples@ =~= reguessed(before));
}

fn samples_from_files(files: Vec<String>) -> (r: Vec<SampleFile>)
    ensures
        r@.len() == files@.len(),
        forall|i: int|
            0 <= i < files@.len() ==> (#[trigger] r@[i]).file == files@[i] && as_int(r@[i].root)
                == file_pitch(files@[i]@),
{
    let n = files.len();
    let mut r: Vec<SampleFile> = Vec::new();
    let mut i: usize = 0;
    while i < n
        invariant
            n == files@.len(),
            i <= n,
            r@.len() == i,
            forall|k: int|
                0 <= k < i ==> (#[trigger] r@[k]).file == files@[k] && as_int(r@[k].root)
                    == file_pitch(files@[k]@),
        decreases n - i,
    {
        r.push(SampleFile::from_file(files[i].clone()));
        i = i + 1;
    }
    r
}

/// The list of samples with their roots, before layers are chosen.
#[derive(Debug, PartialEq, Eq)]
pub struct StepAddSamples {
    pub sample_files: Vec<SampleFile>,
}

impl StepAddSamples {
    /// The samples of `files`, each root read from its own name.
    pub fn from_files(files: Vec<String>) -> (r: StepAddSamples)
        ensures
            r.sample_files@.len() == files@.len(),
            forall|i: int|
                0 <= i < files@.len() ==> (#[trigger] r.sample_files@[i]).file == files@[i]
                    && as_int(r.sample_files@[i].root) == file_pitch(files@[i]@),
    {
        StepAddSamples { sample_files: samples_from_files(files) }
    }

    /// Sets the root of one sample.
    pub fn set_root(&mut self, index: usize, root: u8)
        requires
            index < old(self).sample_files@.len(),
        ensures
            final(self).sample_files@ == old(self).sample_files@.update(
                index as int,
                SampleFile { root: Some(root), ..old(self).sample_files@[index as int] },
            ),
    {
        self.sample_files[index].root = Some(root);
    }

    /// Moves every root one octave up, capped at `127`.
    pub fn increase_octave(&mut self)
        ensures
            final(self).sample_files@ == shifted(old(self).sample_files@, true),
    {
        shift_octaves(&mut self.sample_files, true);
    }

    /// Moves every root one octave down, floored at `0`.
    pub fn decrease_octave(&mut self)
        ensures
            final(self).sample_files@ == shifted(old(self).sample_files@, false),
    {
        shift_octaves(&mut self.sample_files, false);
    }

    /// Reads the roots again, the samples taken as one batch.
    pub fn guess_roots(&mut self)
        ensures
            final(self).sample_files@ == reguessed(old(self).sample_files@),
    {
        reguess_roots(&mut self.sample_files);
    }

    /// Adds samples at the end of the list, each root read from its name.
    pub fn add_files(&mut self, files: Vec<String>)
        ensures
            final(self).sample_files@.len() == old(self).sample_files@.len() + files@.len(),
            final(self).sample_files@.subrange(0, old(self).sample_files@.len() as int)
                == old(self).sample_files@,
            forall|i: int|
                0 <= i < files@.len() ==> (#[trigger] final(self).sample_files@[old(
                    self,
                ).sample_files@.len() + i]).file == files@[i] && as_int(
                    final(self).sample_files@[old(self).sample_files@.len() + i].root,
                ) == file_pitch(files@[i]@),
    {
        let mut added = samples_from_files(files);
        self.sample_files.append(&mut added);
    }
}

/// A root selection form: a list of samples with their roots, edited by
/// hand or an octave at a time; it takes no further files.
#[derive(Debug, PartialEq, Eq)]
pub struct RootNotesForm {
    pub sample_files: Vec<SampleFile>,
}

impl RootNotesForm {
    /// The samples of `files`, each root read from its own name; also what
    /// a reset of the form gives.
    pub fn from_files(files: Vec<String>) -> (r: RootNotesForm)
        ensures
            r.sample_files@.len() == files@.len(),
            forall|i: int|
                0 <= i < files@.len() ==> (#[trigger] r.sample_files@[i]).file == files@[i]
                    && as_int(r.sample_files@[i].root) == file_pitch(files@[i]@),
    {
        RootNotesForm { sample_files: samples_from_files(files) }
    }

    /// Sets the root of one sample.
    pub fn set_root(&mut self, index: usize, root: u8)
        requires
            index < old(self).sample_files@.len(),
        ensures
            final(self).sample_files@ == old(self).sample_files@.update(
                index as int,
                SampleFile { root: Some(root), ..old(self).sample_files@[index as int] },
            ),
    {
        self.sample_files[index].root = Some(root);
    }

    /// Moves every root one octave up, capped at `127`.
    pub fn increase_octave(&mut self)
        ensures
            final(self).sample_files@ == shifted(old(self).sample_files@, true),
    {
        shift_octaves(&mut self.sample_files, true);
    }

    /// Moves every root one octave down, floored at `0`.
    pub fn decrease_octave(&mut self)
        ensures
            final(self).sample_files@ == shifted(old(self).sample_files@, false),
    {
        shift_octaves(&mut self.sample_files, false);
    }
}

/// `a` comes strictly before `b` in character order.
pub open spec fn name_before(a: Seq<char>, b: Seq<char>) -> bool
    decreases a.len(),
{
    if b.len() == 0 {
        false
    } else if a.len() == 0 {
        true
    } else if a[0] != b[0] {
        (a[0] as u32) < (b[0] as u32)
    } else {
        name_before(a.drop_first(), b.drop_first())
    }
}

/// The `j`-th sample takes a slot before the `i`-th: it has the same root
/// and its name comes first (equal names in the order given).
pub open spec fn slot_precedes(samples: Seq<SampleFile>, j: int, i: int) -> bool {
    &&& samples[j].root == samples[i].root
    &&& (name_before(samples[j].file@, samples[i].file@) || (samples[j].file@ == samples[i].file@ && j < i))
}

/// Number of samples among the first `k` that take a slot before the `i`-th.
pub open spec fn slots_before(samples: Seq<SampleFile>, i: int, k: int) -> int
    decreases k,
{
    if k <= 0 {
        0
    } else {
        slots_before(samples, i, k - 1) + if slot_precedes(samples, k - 1, i) {
            1int
        } else {
            0int
        }
    }
}

/// The slot guessed for the `i`-th sample: samples that share a root take
/// the slots in turn, in the order of their names; a sample without a root
/// takes the first slot.
pub open spec fn guessed_slot(samples: Seq<SampleFile>, i: int) -> int {
    if samples[i].root is Some {
        slots_before(samples, i, samples.len() as int) % 4
    } else {
        0
    }
}

proof fn lemma_name_before_step(a: Seq<char>, b: Seq<char>, i: int)
    requires
        0 <= i < a.len(),
        i < b.len(),
        a[i] == b[i],
    ensures
        name_before(a.subrange(i, a.len() as int), b.subrange(i, b.len() as int)) == name_before(
            a.subrange(i + 1, a.len() as int),
            b.subrange(i + 1, b.len() as int),
        ),
{
    assert(a.subrange(i, a.len() as int).drop_first() =~= a.subrange(i + 1, a.len() as int));
    assert(b.subrange(i, b.len() as int).drop_first() =~= b.subrange(i + 1, b.len() as int));
}

/// Whether `a` comes strictly before `b` in character order.
fn name_precedes(a: &str, b: &str) -> (r: bool)
    ensures
        r == name_before(a@, b@),
{
    let na = a.unicode_len();
    let nb = b.unicode_len();
    let mut i: usize = 0;
    assert(a@.subrange(0, na as int) =~= a@);
    assert(b@.subrange(0, nb as int) =~= b@);
    while i < na && i < nb
        invariant
            na == a@.len(),
            nb == b@.len(),
            i <= na,
            i <= nb,
            name_before(a@, b@) == name_before(a@.subrange(i as int, na as int), b@.subrange(i as int, nb as int)),
        decreases na - i,
    {
        let ca = a.get_char(i);
        let cb = b.get_char(i);
        if ca != cb {
            return (ca as u32) < (cb as u32);
        }
        proof {
            lemma_name_before_step(a@, b@, i as int);
        }
        i = i + 1;
    }
    i == na && i < nb
}

/// The layer files for the samples, with their guessed slots.
pub open spec fn guessed_layer_files(samples: Seq<SampleFile>) -> Seq<LayerFile> {
    Seq::new(
        samples.len(),
        |i: int|
            LayerFile {
                file: samples[i].file,
                root: samples[i].root,
                layer: guessed_slot(samples, i) as usize,
            },
    )
}

/// Each file's slot after slots `a` and `b` are exchanged.
pub open spec fn swapped(files: Seq<LayerFile>, a: usize, b: usize) -> Seq<LayerFile> {
    Seq::new(
        files.len(),
        |i: int|
            LayerFile {
                layer: if files[i].layer == a {
                    b
                } else if files[i].layer == b {
                    a
                } else {
                    files[i].layer
                },
                ..files[i]
            },
    )
}

/// Every file set to slot `layer`.
pub open spec fn all_in(files: Seq<LayerFile>, layer: usize) -> Seq<LayerFile> {
    Seq::new(files.len(), |i: int| LayerFile { layer, ..files[i] })
}

/// No file comes before an earlier one by name.
pub open spec fn sorted_by_name(files: Seq<LayerFile>) -> bool {
    forall|i: int, j: int| 0 <= i < j < files.len() ==> !name_before(#[trigger] files[j].file@, #[trigger] files[i].file@)
}

proof fn lemma_name_before_irreflexive(a: Seq<char>)
    ensures
        !name_before(a, a),
    decreases a.len(),
{
    if a.len() > 0 {
        lemma_name_before_irreflexive(a.drop_first());
    }
}

proof fn lemma_name_before_transitive(a: Seq<char>, b: Seq<char>, c: Seq<char>)
    requires
        name_before(a, b),
        name_before(b, c),
    ensures
        name_before(a, c),
    decreases a.len(),
{
    if a.len() > 0 && b.len() > 0 && c.len() > 0 && a[0] == b[0] && b[0] == c[0] {
        lemma_name_before_transitive(a.drop_first(), b.drop_first(), c.drop_first());
    }
}

proof fn lemma_name_before_asymmetric(a: Seq<char>, b: Seq<char>)
    requires
        name_before(a, b),
    ensures
        !name_before(b, a),
{
    if name_before(b, a) {
        lemma_name_before_transitive(a, b, a);
        lemma_name_before_irreflexive(a);
    }
}

/// Inserts `x` after the files whose names do not come after its own.
fn insert_by_name(files: &mut Vec<LayerFile>, x: LayerFile)
    requires
        sorted_by_name(old(files)@),
    ensures
        sorted_by_name(final(files)@),
        final(files)@.to_multiset() == old(files)@.to_multiset().insert(x),
{
    let n = files.len();
    let mut p: usize = 0;
    while p < n && !name_precedes(x.file.as_str(), files[p].file.as_str())
        invariant
            n == files@.len(),
            p <= n,
            forall|k: int| 0 <= k < p ==> !name_before(x.file@, #[trigger] files@[k].file@),
        decreases n - p,
    {
        p = p + 1;
    }
    let ghost before = files@;
    files.insert(p, x);
    proof {
        vstd::seq_lib::to_multiset_insert(before, p as int, x);
        assert forall|i: int, j: int| 0 <= i < j < files@.len() implies !name_before(
            #[trigger] files@[j].file@,
            #[trigger] files@[i].file@,
        ) by {
            if j == p {
                assert(files@[i] == before[i]);
            } else if i == p {
                let y = before[j - 1];
                assert(files@[j] == y);
                assert(name_before(x.file@, before[p as int].file@));
                if j - 1 == p {
                    lemma_name_before_asymmetric(x.file@, y.file@);
                } else if name_before(y.file@, x.file@) {
                    lemma_name_before_transitive(y.file@, x.file@, before[p as int].file@);
                }
            } else {
                let ii = if i < p { i } else { i - 1 };
                let jj = if j < p { j } else { j - 1 };
                assert(files@[i] == before[ii]);
                assert(files@[j] == before[jj]);
            }
        }
    }
}

/// The layer files for the samples, with their guessed slots, sorted by
/// file name.
fn guess_layers(samples: &Vec<SampleFile>) -> (r: Vec<LayerFile>)
    ensures
        sorted_by_name(r@),
        r@.to_multiset() == guessed_layer_files(samples@).to_multiset(),
{
    let guessed = guess_slots(samples);
    let n = guessed.len();
    let mut r: Vec<LayerFile> = Vec::new();
    let mut i: usize = 0;
    proof {
        assert(guessed@.subrange(0, 0) =~= Seq::<LayerFile>::empty());
        vstd::seq_lib::to_multiset_len(r@);
        vstd::multiset::lemma_multiset_empty_len(r@.to_multiset());
        vstd::seq_lib::to_multiset_len(guessed@.subrange(0, 0));
        vstd::multiset::lemma_multiset_empty_len(guessed@.subrange(0, 0).to_multiset());
    }
    while i < n
        invariant
            n == guessed@.len(),
            i <= n,
            sorted_by_name(r@),
            r@.to_multiset() == guessed@.subrange(0, i as int).to_multiset(),
        decreases n - i,
    {
        let x = guessed[i].clone();
        insert_by_name(&mut r, x);
        proof {
            assert(guessed@.subrange(0, i + 1) =~= guessed@.subrange(0, i as int).push(x));
            guessed@.subrange(0, i as int).to_multiset_ensures();
        }
        i = i + 1;
    }
    assert(guessed@.subrange(0, n as int) =~= guessed@);
    r
}

/// The layer files for the samples, with their guessed slots, in the order
/// given.
fn guess_slots(samples: &Vec<SampleFile>) -> (r: Vec<LayerFile>)
    ensures
        r@ == guessed_layer_files(samples@),
{
    let n = samples.len();
    let mut r: Vec<LayerFile> = Vec::new();
    let mut i: usize = 0;
    while i < n
        invariant
            n == samples@.len(),
            i <= n,
            r@.len() == i,
            forall|k: int| 0 <= k < i ==> #[trigger] r@[k] == guessed_layer_files(samples@)[k],
        decreases n - i,
    {
        let root = samples[i].root;
        let mut slot: usize = 0;
        if root.is_some() {
            let mut count: usize = 0;
            let mut k: usize = 0;
            while k < n
                invariant
                    n == samples@.len(),
                    i < n,
                    k <= n,
                    root == samples@[i as int].root,
                    count == slots_before(samples@, i as int, k as int),
                    count <= k,
                decreases n - k,
            {
                if samples[k].root == root {
                    let earlier = name_precedes(samples[k].file.as_str(), samples[i].file.as_str()) || (
                    k < i && samples[k].file == samples[i].file);
                    if earlier {
                        count = count + 1;
                    }
                }
                k = k + 1;
            }
            slot = count % 4;
        }
        r.push(LayerFile { file: samples[i].file.clone(), root, layer: slot });
        i = i + 1;
    }
    assert(r@ =~= guessed_layer_files(samples@));
    r
}

fn set_all(files: &mut Vec<LayerFile>, layer: usize)
    ensures
        final(files)@ == all_in(old(files)@, layer),
{
    let ghost before = files@;
    let n = files.len();
    let mut i: usize = 0;
    while i < n
        invariant
            n == files@.len(),
            before.len() == n,
            i <= n,
            forall|k: int| i <= k < n ==> files@[k] == before[k],
            forall|k: int| 0 <= k < i ==> files@[k] == #[trigger] all_in(before, layer)[k],
        decreases n - i,
    {
        files[i].layer = layer;
        i = i + 1;
    }
    assert(files@ =~= all_in(before, layer));
}

fn swap_slots(files: &mut Vec<LayerFile>, a: usize, b: usize)
    ensures
        final(files)@ == swapped(old(files)@, a, b),
{
    let ghost before = files@;
    let n = files.len();
    let mut i: usize = 0;
    while i < n
        invariant
            n == files@.len(),
            before.len() == n,
            i <= n,
            forall|k: int| i <= k < n ==> files@[k] == before[k],
            forall|k: int| 0 <= k < i ==> files@[k] == #[trigger] swapped(before, a, b)[k],
        decreases n - i,
    {
        let layer = files[i].layer;
        files[i].layer = if layer == a {
            b
        } else if layer == b {
            a
        } else {
            layer
        };
        i = i + 1;
    }
    assert(files@ =~= swapped(before, a, b));
}

fn common_slot(files: &Vec<LayerFile>) -> (r: Option<usize>)
    ensures
        r matches Some(l) ==> files@.len() > 0 && forall|i: int|
            0 <= i < files@.len() ==> (#[trigger] files@[i]).layer == l,
        r is None ==> files@.len() == 0 || exists|i: int|
            0 <= i < files@.len() && (#[trigger] files@[i]).layer != files@[0].layer,
{
    let n = files.len();
    if n == 0 {
        return None;
    }
    let first = files[0].layer;
    let mut i: usize = 1;
    while i < n
        invariant
            n == files@.len(),
            1 <= i <= n,
            first == files@[0].layer,
            forall|k: int| 0 <= k < i ==> (#[trigger] files@[k]).layer == first,
        decreases n - i,
    {
        if files[i].layer != first {
            return None;
        }
        i = i + 1;
    }
    Some(first)
}

/// The choice of a layer slot for each sample.
#[derive(Debug, PartialEq, Eq)]
pub struct StepSelectLayers {
    pub layer_files: Vec<LayerFile>,
}

impl StepSelectLayers {
    /// Guesses a slot for each sample (see `guessed_slot`); the files are
    /// listed by name.
    pub fn from_sample_files(samples: &Vec<SampleFile>) -> (r: StepSelectLayers)
        ensures
            sorted_by_name(r.layer_files@),
            r.layer_files@.to_multiset() == guessed_layer_files(samples@).to_multiset(),
    {
        StepSelectLayers { layer_files: guess_layers(samples) }
    }

    /// Puts one sample in slot `layer`.
    pub fn set_layer(&mut self, index: usize, layer: usize)
        requires
            index < old(self).layer_files@.len(),
        ensures
            final(self).layer_files@ == old(self).layer_files@.update(
                index as int,
                LayerFile { layer, ..old(self).layer_files@[index as int] },
            ),
    {
        self.layer_files[index].layer = layer;
    }

    /// Puts every sample in slot `layer`.
    pub fn set_all_layers(&mut self, layer: usize)
        ensures
            final(self).layer_files@ == all_in(old(self).layer_files@, layer),
    {
        set_all(&mut self.layer_files, layer);
    }

    /// Exchanges slots `a` and `b`.
    pub fn swap_layers(&mut self, a: usize, b: usize)
        ensures
            final(self).layer_files@ == swapped(old(self).layer_files@, a, b),
    {
        swap_slots(&mut self.layer_files, a, b);
    }

    /// The slot that every sample is in, if there are samples and they all
    /// are in the same one.
    pub fn common_layer(&self) -> (r: Option<usize>)
        ensures
            r matches Some(l) ==> self.layer_files@.len() > 0 && forall|i: int|
                0 <= i < self.layer_files@.len() ==> (#[trigger] self.layer_files@[i]).layer == l,
            r is None ==> self.layer_files@.len() == 0 || exists|i: int|
                0 <= i < self.layer_files@.len() && (#[trigger] self.layer_files@[i]).layer
                    != self.layer_files@[0].layer,
    {
        common_slot(&self.layer_files)
    }
}

/// The changes a user makes in the layer selection form.
#[derive(Debug, Clone, Copy, PartialEq, Eq, Structural)]
pub enum LayerSelectFormMessages {
    /// Put one sample (by index) in a slot.
    LayerChanged(usize, usize),
    /// Put every sample in a slot.
    AllLayerChanged(usize),
    /// Exchange two slots.
    Swap(usize, usize),
    /// The selection is done.
    Done,
    /// Guess the slots again.
    Reset,
    /// Leave the form.
    Cancel,
}

/// What the form asks of its surroundings after a change.
#[derive(Debug, Clone, Copy, PartialEq, Eq, Structural)]
pub enum FormAction {
    /// The form changed and is drawn again.
    Redraw,
    /// The selection is handed on.
    Selected,
    /// The form is left.
    Cancelled,
}

/// A layer selection form, driven by messages.
#[derive(Debug, PartialEq, Eq)]
pub struct LayerSelectForm {
    pub layer_files: Vec<LayerFile>,
}

impl LayerSelectForm {
    /// Guesses a slot for each sample (see `guessed_slot`); the files are
    /// listed by name.
    pub fn from_sample_files(samples: &Vec<SampleFile>) -> (r: LayerSelectForm)
        ensures
            sorted_by_name(r.layer_files@),
            r.layer_files@.to_multiset() == guessed_layer_files(samples@).to_multiset(),
    {
        LayerSelectForm { layer_files: guess_layers(samples) }
    }

    /// Applies a change; `samples` are the form's samples, used by a reset.
    /// A change of an index outside the list changes nothing.
    pub fn update(&mut self, msg: LayerSelectFormMessages, samples: &Vec<SampleFile>) -> (r: FormAction)
        ensures
            match msg {
                LayerSelectFormMessages::LayerChanged(index, layer) => r == FormAction::Redraw && (
                    if index < old(self).layer_files@.len() {
                        final(self).layer_files@ == old(self).layer_files@.update(
                            index as int,
                            LayerFile { layer, ..old(self).layer_files@[index as int] },
                        )
                    } else {
                        final(self).layer_files@ == old(self).layer_files@
                    }),
                LayerSelectFormMessages::AllLayerChanged(layer) => r == FormAction::Redraw
                    && final(self).layer_files@ == all_in(old(self).layer_files@, layer),
                LayerSelectFormMessages::Swap(a, b) => r == FormAction::Redraw
                    && final(self).layer_files@ == swapped(old(self).layer_files@, a, b),
                LayerSelectFormMessages::Done => r == FormAction::Selected
                    && final(self).layer_files@ == old(self).layer_files@,
                LayerSelectFormMessages::Reset => r == FormAction::Redraw && sorted_by_name(
                    final(self).layer_files@,
                ) && final(self).layer_files@.to_multiset() == guessed_layer_files(samples@).to_multiset(),
                LayerSelectFormMessages::Cancel => r == FormAction::Cancelled
                    && final(self).layer_files@ == old(self).layer_files@,
            },
    {
        match msg {
            LayerSelectFormMessages::LayerChanged(index, layer) => {
                if index < self.layer_files.len() {
                    self.layer_files[index].layer = layer;
                }
                FormAction::Redraw
            },
            LayerSelectFormMessages::AllLayerChanged(layer) => {
                set_all(&mut self.layer_files, layer);
                FormAction::Redraw
            },
            LayerSelectFormMessages::Swap(a, b) => {
                swap_slots(&mut self.layer_files, a, b);
                FormAction::Redraw
            },
            LayerSelectFormMessages::Done => FormAction::Selected,
            LayerSelectFormMessages::Reset => {
                self.layer_files = guess_layers(samples);
                FormAction::Redraw
            },
            LayerSelectFormMessages::Cancel => FormAction::Cancelled,
        }
    }
}

} // verus!
