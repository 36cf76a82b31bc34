//! A keygroup program: named keygroups that together make an instrument.
use vstd::prelude::*;

use crate::export::{export_document, first_error, ExportError};
use crate::keygroup::{populated, with_velocity_mode, Keygroup};
use crate::layer::{full_velocity, Layer, LayerFile, LayerVelocityMode};
use crate::parse::file_pitch;
use crate::range::{build_ranges, spec_ranges, InclusiveRange, MAX_PITCH};

verus! {

/// An instrument built from samples, split into keygroups.
#[derive(Debug, PartialEq, Eq)]
pub struct KeygroupProgram {
    /// Program name.
    pub name: String,
    /// The keygroups, in keyboard order once sorted.
    pub keygroups: Vec<Keygroup>,
}

// ----- grouping the samples of one root -----

/// The slot holds a layer whose root is `root`.
pub open spec fn slot_has_root(slot: Option<Layer>, root: u8) -> bool {
    slot matches Some(l) && l.root == Some(root)
}

/// Some slot of the keygroup holds a layer whose root is `root`.
pub open spec fn has_root(kg: Keygroup, root: u8) -> bool {
    exists|j: int| 0 <= j < 4 && slot_has_root(#[trigger] kg.layers@[j], root)
}

/// The first keygroup at or after `i` with a layer of root `root`.
pub open spec fn group_from(kgs: Seq<Keygroup>, root: u8, i: int) -> Option<int>
    decreases kgs.len() - i,
{
    if i < 0 || i >= kgs.len() {
        None
    } else if has_root(kgs[i], root) {
        Some(i)
    } else {
        group_from(kgs, root, i + 1)
    }
}

/// The keygroup that a file of root `root` joins, if one already has it.
pub open spec fn matching_group(kgs: Seq<Keygroup>, root: Option<u8>) -> Option<int> {
    match root {
        Some(r) => group_from(kgs, r, 0),
        None => None,
    }
}

/// The layer made for a file: its name and root, the full velocity range.
pub open spec fn file_layer(file: LayerFile) -> Layer {
    Layer { file: file.file, root: file.root, velocity: full_velocity() }
}

/// The keygroups after `file` is inserted: into its slot of the first
/// keygroup that has a layer of the same root, or else into a new keygroup
/// with no range yet.
pub open spec fn inserted(kgs: Seq<Keygroup>, file: LayerFile) -> Seq<Keygroup> {
    match matching_group(kgs, file.root) {
        Some(i) => kgs.update(
            i,
            Keygroup {
                layers: vstd::array::spec_array_update(
                    kgs[i].layers,
                    file.layer as int,
                    Some(file_layer(file)),
                ),
                ..kgs[i]
            },
        ),
        None => kgs.push(
            Keygroup {
                range: None,
                layers: vstd::array::spec_array_update(
                    [None, None, None, None],
                    file.layer as int,
                    Some(file_layer(file)),
                ),
            },
        ),
    }
}

/// The keygroups after the first `k` files are inserted in turn.
pub open spec fn inserted_all(kgs: Seq<Keygroup>, files: Seq<LayerFile>, k: int) -> Seq<Keygroup>
    decreases k,
{
    if k <= 0 {
        kgs
    } else {
        inserted(inserted_all(kgs, files, k - 1), files[k - 1])
    }
}

// ----- sorting -----

/// The first populated slot's layer.
pub open spec fn first_layer(kg: Keygroup) -> Option<Layer> {
    if kg.layers@[0] is Some {
        kg.layers@[0]
    } else if kg.layers@[1] is Some {
        kg.layers@[1]
    } else if kg.layers@[2] is Some {
        kg.layers@[2]
    } else {
        kg.layers@[3]
    }
}

/// Number of sort keys.
pub const SORT_KEYS: u16 = 258;

/// The sort key of a keygroup: empty keygroups first, then those whose first
/// layer has no root, then by that root.
pub open spec fn sort_key(kg: Keygroup) -> int {
    match first_layer(kg) {
        None => 0,
        Some(l) => match l.root {
            None => 1,
            Some(r) => r + 2,
        },
    }
}

/// The keygroups among the first `j` whose key is `key`, in order.
pub open spec fn key_bucket(kgs: Seq<Keygroup>, key: int, j: int) -> Seq<Keygroup>
    decreases j,
{
    if j <= 0 {
        seq![]
    } else if sort_key(kgs[j - 1]) == key {
        key_bucket(kgs, key, j - 1).push(kgs[j - 1])
    } else {
        key_bucket(kgs, key, j - 1)
    }
}

/// The keygroups whose key is below `key`, by key, in order within a key.
pub open spec fn sorted_below(kgs: Seq<Keygroup>, key: int) -> Seq<Keygroup>
    decreases key,
{
    if key <= 0 {
        seq![]
    } else {
        sorted_below(kgs, key - 1) + key_bucket(kgs, key - 1, kgs.len() as int)
    }
}

/// The keygroups sorted by key; keygroups of equal key keep their order.
pub open spec fn sorted_keygroups(kgs: Seq<Keygroup>) -> Seq<Keygroup> {
    sorted_below(kgs, SORT_KEYS as int)
}

/// The keygroups among the first `j` whose key is below `key`, in order.
pub open spec fn keys_below(kgs: Seq<Keygroup>, key: int, j: int) -> Seq<Keygroup>
    decreases j,
{
    if j <= 0 {
        seq![]
    } else if sort_key(kgs[j - 1]) < key {
        keys_below(kgs, key, j - 1).push(kgs[j - 1])
    } else {
        keys_below(kgs, key, j - 1)
    }
}

proof fn lemma_empty_multiset(s: Seq<Keygroup>)
    requires
        s.len() == 0,
    ensures
        s.to_multiset() == vstd::multiset::Multiset::<Keygroup>::empty(),
{
    vstd::seq_lib::to_multiset_len(s);
    vstd::multiset::lemma_multiset_empty_len(s.to_multiset());
}

proof fn lemma_key_bucket(kgs: Seq<Keygroup>, key: int, j: int)
    requires
        0 <= j <= kgs.len(),
    ensures
        forall|i: int| 0 <= i < key_bucket(kgs, key, j).len() ==> sort_key(#[trigger] key_bucket(kgs, key, j)[i]) == key,
        keys_below(kgs, key + 1, j).to_multiset() == keys_below(kgs, key, j).to_multiset().add(
            key_bucket(kgs, key, j).to_multiset(),
        ),
    decreases j,
{
    if j > 0 {
        lemma_key_bucket(kgs, key, j - 1);
        keys_below(kgs, key + 1, j - 1).to_multiset_ensures();
        keys_below(kgs, key, j - 1).to_multiset_ensures();
        key_bucket(kgs, key, j - 1).to_multiset_ensures();
        let x = kgs[j - 1];
        if sort_key(x) < key {
            assert(keys_below(kgs, key, j - 1).to_multiset().insert(x).add(key_bucket(kgs, key, j - 1).to_multiset())
                =~= keys_below(kgs, key, j - 1).to_multiset().add(key_bucket(kgs, key, j - 1).to_multiset()).insert(x));
        } else if sort_key(x) == key {
            assert(keys_below(kgs, key, j - 1).to_multiset().add(key_bucket(kgs, key, j - 1).to_multiset().insert(x))
                =~= keys_below(kgs, key, j - 1).to_multiset().add(key_bucket(kgs, key, j - 1).to_multiset()).insert(x));
        }
    } else {
        lemma_empty_multiset(keys_below(kgs, key + 1, j));
        lemma_empty_multiset(keys_below(kgs, key, j));
        lemma_empty_multiset(key_bucket(kgs, key, j));
        assert(keys_below(kgs, key + 1, j).to_multiset() =~= keys_below(kgs, key, j).to_multiset().add(
            key_bucket(kgs, key, j).to_multiset()));
    }
}

proof fn lemma_sorted_below(kgs: Seq<Keygroup>, key: int)
    requires
        0 <= key,
    ensures
        forall|i: int| 0 <= i < sorted_below(kgs, key).len() ==> #[trigger] sort_key(sorted_below(kgs, key)[i]) < key,
        forall|i: int, j: int|
            0 <= i < j < sorted_below(kgs, key).len() ==> sort_key(#[trigger] sorted_below(kgs, key)[i]) <= sort_key(
                #[trigger] sorted_below(kgs, key)[j],
            ),
        sorted_below(kgs, key).to_multiset() == keys_below(kgs, key, kgs.len() as int).to_multiset(),
    decreases key,
{
    if key > 0 {
        lemma_sorted_below(kgs, key - 1);
        lemma_key_bucket(kgs, key - 1, kgs.len() as int);
        let left = sorted_below(kgs, key - 1);
        let right = key_bucket(kgs, key - 1, kgs.len() as int);
        assert forall|i: int| 0 <= i < sorted_below(kgs, key).len() implies #[trigger] sort_key(sorted_below(kgs, key)[i]) < key by {
            if i >= left.len() {
                assert(sorted_below(kgs, key)[i] == right[i - left.len()]);
            }
        }
        assert forall|i: int, j: int|
            0 <= i < j < sorted_below(kgs, key).len() implies sort_key(#[trigger] sorted_below(kgs, key)[i]) <= sort_key(
                #[trigger] sorted_below(kgs, key)[j],
            ) by {
            if j >= left.len() {
                assert(sorted_below(kgs, key)[j] == right[j - left.len()]);
                if i >= left.len() {
                    assert(sorted_below(kgs, key)[i] == right[i - left.len()]);
                }
            }
        }
        vstd::seq_lib::lemma_multiset_commutative(left, right);
    } else {
        lemma_keys_below_zero(kgs, key, kgs.len() as int);
        lemma_empty_multiset(keys_below(kgs, key, kgs.len() as int));
        lemma_empty_multiset(sorted_below(kgs, key));
    }
}

proof fn lemma_keys_below_zero(kgs: Seq<Keygroup>, key: int, j: int)
    requires
        key <= 0,
    ensures
        keys_below(kgs, key, j) == Seq::<Keygroup>::empty(),
    decreases j,
{
    if j > 0 {
        lemma_keys_below_zero(kgs, key, j - 1);
    }
}

proof fn lemma_keys_below_all(kgs: Seq<Keygroup>, j: int)
    requires
        0 <= j <= kgs.len(),
    ensures
        keys_below(kgs, SORT_KEYS as int, j) == kgs.subrange(0, j),
    decreases j,
{
    if j > 0 {
        lemma_keys_below_all(kgs, j - 1);
        assert(kgs.subrange(0, j) =~= kgs.subrange(0, j - 1).push(kgs[j - 1]));
    } else {
        assert(kgs.subrange(0, 0) =~= Seq::<Keygroup>::empty());
    }
}

/// The sorted keygroups are in ascending key order and are the same
/// keygroups, each as many times as before.
pub proof fn lemma_sorted_keygroups(kgs: Seq<Keygroup>)
    ensures
        forall|i: int, j: int|
            0 <= i < j < sorted_keygroups(kgs).len() ==> sort_key(#[trigger] sorted_keygroups(kgs)[i]) <= sort_key(
                #[trigger] sorted_keygroups(kgs)[j],
            ),
        sorted_keygroups(kgs).to_multiset() == kgs.to_multiset(),
{
    lemma_sorted_below(kgs, SORT_KEYS as int);
    lemma_keys_below_all(kgs, kgs.len() as int);
    assert(kgs.subrange(0, kgs.len() as int) == kgs);
}

// ----- ranges -----

/// The root of the first slot, when that slot is populated.
pub open spec fn primary_root(kg: Keygroup) -> Option<u8> {
    match kg.layers@[0] {
        Some(l) => l.root,
        None => None,
    }
}

/// Indices among the first `j` whose primary root is `root`, ascending.
pub open spec fn root_bucket(kgs: Seq<Keygroup>, root: int, j: int) -> Seq<int>
    decreases j,
{
    if j <= 0 {
        seq![]
    } else if primary_root(kgs[j - 1]) == Some(root as u8) {
        root_bucket(kgs, root, j - 1).push(j - 1)
    } else {
        root_bucket(kgs, root, j - 1)
    }
}

/// Indices of the keygroups whose primary root is below `root`, by root.
pub open spec fn order_below(kgs: Seq<Keygroup>, root: int) -> Seq<int>
    decreases root,
{
    if root <= 0 {
        seq![]
    } else {
        order_below(kgs, root - 1) + root_bucket(kgs, root - 1, kgs.len() as int)
    }
}

/// Indices of the keygroups whose primary root is a pitch, sorted by that
/// root; equal roots keep their order.
pub open spec fn range_order(kgs: Seq<Keygroup>) -> Seq<int> {
    order_below(kgs, MAX_PITCH as int + 1)
}

/// The primary roots in `range_order`.
pub open spec fn sorted_roots(kgs: Seq<Keygroup>) -> Seq<u8> {
    Seq::new(range_order(kgs).len(), |k: int| primary_root(kgs[range_order(kgs)[k]])->0)
}

pub open spec fn with_range(kg: Keygroup, range: InclusiveRange) -> Keygroup {
    Keygroup { range: Some(range), ..kg }
}

pub open spec fn set_range(kgs: Seq<Keygroup>, i: int, range: InclusiveRange) -> Seq<Keygroup> {
    Seq::new(kgs.len(), |j: int| if j == i { with_range(kgs[j], range) } else { kgs[j] })
}

/// The keygroups after the first `k` ranges are written to the keygroups
/// that `order` names.
pub open spec fn assign_ranges(
    kgs: Seq<Keygroup>,
    order: Seq<int>,
    ranges: Seq<InclusiveRange>,
    k: int,
) -> Seq<Keygroup>
    decreases k,
{
    if k <= 0 {
        kgs
    } else {
        set_range(assign_ranges(kgs, order, ranges, k - 1), order[k - 1], ranges[k - 1])
    }
}

/// The keygroups after `guess_ranges`: the ranges built from the sorted
/// primary roots are written back to their keygroups.
pub open spec fn guessed(kgs: Seq<Keygroup>, preference: u16) -> Seq<Keygroup> {
    assign_ranges(
        kgs,
        range_order(kgs),
        spec_ranges(sorted_roots(kgs), preference),
        range_order(kgs).len() as int,
    )
}

/// The last of the first `k` positions of `order` that names `i`.
pub open spec fn last_position(order: Seq<int>, i: int, k: int) -> Option<int>
    decreases k,
{
    if k <= 0 {
        None
    } else if order[k - 1] == i {
        Some(k - 1)
    } else {
        last_position(order, i, k - 1)
    }
}

proof fn lemma_assign_shape(kgs: Seq<Keygroup>, order: Seq<int>, ranges: Seq<InclusiveRange>, k: int)
    requires
        0 <= k,
    ensures
        assign_ranges(kgs, order, ranges, k).len() == kgs.len(),
        forall|i: int|
            0 <= i < kgs.len() ==> #[trigger] assign_ranges(kgs, order, ranges, k)[i] == match last_position(order, i, k) {
                Some(p) => with_range(kgs[i], ranges[p]),
                None => kgs[i],
            },
    decreases k,
{
    if k > 0 {
        lemma_assign_shape(kgs, order, ranges, k - 1);
    }
}

proof fn lemma_root_bucket_same(a: Seq<Keygroup>, b: Seq<Keygroup>, root: int, j: int)
    requires
        a.len() == b.len(),
        j <= a.len(),
        forall|i: int| 0 <= i < a.len() ==> primary_root(#[trigger] a[i]) == primary_root(b[i]),
    ensures
        root_bucket(a, root, j) == root_bucket(b, root, j),
        forall|k: int| 0 <= k < root_bucket(a, root, j).len() ==> 0 <= #[trigger] root_bucket(a, root, j)[k] < j,
    decreases j,
{
    if j > 0 {
        lemma_root_bucket_same(a, b, root, j - 1);
    }
}

proof fn lemma_order_same(a: Seq<Keygroup>, b: Seq<Keygroup>, root: int)
    requires
        a.len() == b.len(),
        forall|i: int| 0 <= i < a.len() ==> primary_root(#[trigger] a[i]) == primary_root(b[i]),
    ensures
        order_below(a, root) == order_below(b, root),
        forall|k: int| 0 <= k < order_below(a, root).len() ==> 0 <= #[trigger] order_below(a, root)[k] < a.len(),
    decreases root,
{
    if root > 0 {
        lemma_order_same(a, b, root - 1);
        lemma_root_bucket_same(a, b, root - 1, a.len() as int);
        let left = order_below(a, root - 1);
        let right = root_bucket(a, root - 1, a.len() as int);
        assert forall|k: int| 0 <= k < order_below(a, root).len() implies 0 <= #[trigger] order_below(a, root)[k] < a.len() by {
            if k >= left.len() {
                assert(order_below(a, root)[k] == right[k - left.len()]);
            }
        }
    }
}

/// Guessing the ranges a second time, with no change in between, changes
/// nothing: the roots and their order are the same, so each keygroup gets
/// the range it already has.
pub proof fn lemma_guess_ranges_idempotent(kgs: Seq<Keygroup>, preference: u16)
    ensures
        guessed(guessed(kgs, preference), preference) == guessed(kgs, preference),
{
    let g = guessed(kgs, preference);
    let ord = range_order(kgs);
    let rng = spec_ranges(sorted_roots(kgs), preference);
    let m = ord.len() as int;
    lemma_assign_shape(kgs, ord, rng, m);
    assert forall|i: int| 0 <= i < kgs.len() implies primary_root(#[trigger] g[i]) == primary_root(kgs[i]) by {
        assert(g[i].layers == kgs[i].layers);
    }
    lemma_order_same(g, kgs, MAX_PITCH as int + 1);
    assert(range_order(g) == ord);
    assert(sorted_roots(g) =~= sorted_roots(kgs));
    lemma_assign_shape(g, ord, rng, m);
    assert(guessed(g, preference) =~= g);
}

// ----- edits -----

/// The keygroup has at least one populated slot.
pub open spec fn has_layer(kg: Keygroup) -> bool {
    exists|j: int| 0 <= j < 4 && (#[trigger] kg.layers@[j]) is Some
}

/// The keygroups among the first `j` that have a layer, in order.
pub open spec fn with_layers(kgs: Seq<Keygroup>, j: int) -> Seq<Keygroup>
    decreases j,
{
    if j <= 0 {
        seq![]
    } else if has_layer(kgs[j - 1]) {
        with_layers(kgs, j - 1).push(kgs[j - 1])
    } else {
        with_layers(kgs, j - 1)
    }
}

/// The file and root in a slot; an empty slot reads as no file and no root.
pub open spec fn slot_sample(kg: Keygroup, slot: int) -> (Seq<char>, Option<u8>) {
    match kg.layers@[slot] {
        Some(l) => (l.file@, l.root),
        None => (Seq::<char>::empty(), None),
    }
}

/// Whether an edit of slot `slot` changed which samples the keygroups hold.
pub open spec fn samples_changed(before: Seq<Keygroup>, after: Seq<Keygroup>, slot: int) -> bool {
    before.len() != after.len() || exists|i: int|
        0 <= i < before.len() && slot_sample(#[trigger] before[i], slot) != slot_sample(after[i], slot)
}

// ----- sorting a layer slot -----

/// The slot holds a layer whose root lies in `range`.
pub open spec fn fits(slot: Option<Layer>, range: InclusiveRange) -> bool {
    slot matches Some(l) && l.root matches Some(r) && range.start <= r <= range.end
}

/// The first entry of `pool` at or after `k` that fits `range`.
pub open spec fn first_fit(pool: Seq<Option<Layer>>, range: InclusiveRange, k: int) -> Option<int>
    decreases pool.len() - k,
{
    if k < 0 || k >= pool.len() {
        None
    } else if fits(pool[k], range) {
        Some(k)
    } else {
        first_fit(pool, range, k + 1)
    }
}

/// The contents of slot `slot` of every keygroup.
pub open spec fn slot_contents(kgs: Seq<Keygroup>, slot: int) -> Seq<Option<Layer>> {
    Seq::new(kgs.len(), |i: int| kgs[i].layers@[slot])
}

/// After the first `i` keygroups took, in order, the first entry of the
/// pool that fits their range: what each of them got, and what is left.
pub open spec fn fitted(kgs: Seq<Keygroup>, slot: int, i: int) -> (Seq<Option<Layer>>, Seq<Option<Layer>>)
    decreases i,
{
    if i <= 0 {
        (seq![], slot_contents(kgs, slot))
    } else {
        let (got, pool) = fitted(kgs, slot, i - 1);
        match kgs[i - 1].range {
            Some(range) => match first_fit(pool, range, 0) {
                Some(p) => (got.push(pool[p]), pool.remove(p)),
                None => (got.push(None), pool),
            },
            None => (got.push(None), pool),
        }
    }
}

/// After the first `i` entries of `got`: the leftover pool handed in order
/// to the entries that got nothing, and how much of the pool was used.
pub open spec fn filled(got: Seq<Option<Layer>>, pool: Seq<Option<Layer>>, i: int) -> (Seq<Option<Layer>>, int)
    decreases i,
{
    if i <= 0 {
        (seq![], 0)
    } else {
        let (out, used) = filled(got, pool, i - 1);
        if got[i - 1] is None && used < pool.len() {
            (out.push(pool[used]), used + 1)
        } else {
            (out.push(got[i - 1]), used)
        }
    }
}

/// The new contents of slot `slot`: each keygroup with a range takes the
/// first sample of that slot whose root lies in its range; the samples left
/// over go, in order, to the keygroups that took none.
pub open spec fn refitted_slot(kgs: Seq<Keygroup>, slot: int) -> Seq<Option<Layer>> {
    let (got, pool) = fitted(kgs, slot, kgs.len() as int);
    filled(got, pool, kgs.len() as int).0
}

/// The keygroups with slot `slot` set to `contents`.
pub open spec fn with_slot(kgs: Seq<Keygroup>, slot: int, contents: Seq<Option<Layer>>) -> Seq<Keygroup> {
    Seq::new(
        kgs.len(),
        |i: int| Keygroup { layers: vstd::array::spec_array_update(kgs[i].layers, slot, contents[i]), ..kgs[i] },
    )
}

/// The keygroups after slot `slot` is sorted.
pub open spec fn slot_sorted(kgs: Seq<Keygroup>, slot: int) -> Seq<Keygroup> {
    with_slot(kgs, slot, refitted_slot(kgs, slot))
}

/// The keygroups after `sort_layer(slot)`.
pub open spec fn layer_sorted(kgs: Seq<Keygroup>, slot: int) -> Seq<Keygroup> {
    if slot == 0 {
        slot_sorted(slot_sorted(slot_sorted(sorted_keygroups(kgs), 1), 2), 3)
    } else {
        slot_sorted(kgs, slot)
    }
}

proof fn lemma_first_fit_bounds(pool: Seq<Option<Layer>>, range: InclusiveRange, k: int)
    requires
        0 <= k,
    ensures
        first_fit(pool, range, k) matches Some(p) ==> k <= p < pool.len(),
    decreases pool.len() - k,
{
    if k < pool.len() && !fits(pool[k], range) {
        lemma_first_fit_bounds(pool, range, k + 1);
    }
}

proof fn lemma_fitted_len(kgs: Seq<Keygroup>, slot: int, i: int)
    requires
        0 <= i <= kgs.len(),
    ensures
        fitted(kgs, slot, i).0.len() == i,
    decreases i,
{
    if i > 0 {
        lemma_fitted_len(kgs, slot, i - 1);
        let (got, pool) = fitted(kgs, slot, i - 1);
        if let Some(range) = kgs[i - 1].range {
            lemma_first_fit_bounds(pool, range, 0);
        }
    }
}

proof fn lemma_filled(got: Seq<Option<Layer>>, pool: Seq<Option<Layer>>, i: int)
    requires
        0 <= i <= got.len(),
    ensures
        filled(got, pool, i).0.len() == i,
        0 <= filled(got, pool, i).1 <= pool.len(),
    decreases i,
{
    if i > 0 {
        lemma_filled(got, pool, i - 1);
    }
}

fn fits_exec(slot: &Option<Layer>, range: InclusiveRange) -> (r: bool)
    ensures
        r == fits(*slot, range),
{
    match slot {
        Some(l) => match l.root {
            Some(root) => range.start <= root && root <= range.end,
            None => false,
        },
        None => false,
    }
}

fn find_fit(pool: &Vec<Option<Layer>>, range: InclusiveRange) -> (r: Option<usize>)
    ensures
        r matches Some(p) ==> first_fit(pool@, range, 0) == Some(p as int),
        r is None ==> first_fit(pool@, range, 0) is None,
{
    let n = pool.len();
    let mut k: usize = 0;
    while k < n
        invariant
            n == pool@.len(),
            k <= n,
            first_fit(pool@, range, 0) == first_fit(pool@, range, k as int),
        decreases n - k,
    {
        if fits_exec(&pool[k], range) {
            return Some(k);
        }
        k = k + 1;
    }
    None
}

fn clone_slot_of(slot: &Option<Layer>) -> (r: Option<Layer>)
    ensures
        r == *slot,
{
    match slot {
        Some(l) => Some(l.clone()),
        None => None,
    }
}

// ----- adding files to a slot -----

/// One of the first `n` keygroups holds a layer of `file` in slot `slot`.
pub open spec fn held_in(kgs: Seq<Keygroup>, slot: int, file: Seq<char>, n: int) -> bool {
    exists|i: int| 0 <= i < n && (#[trigger] kgs[i].layers@[slot] matches Some(l) && l.file@ == file)
}

/// Some keygroup holds a layer of `file` in slot `slot`.
pub open spec fn file_in_slot(kgs: Seq<Keygroup>, slot: int, file: Seq<char>) -> bool {
    held_in(kgs, slot, file, kgs.len() as int)
}

/// One of `files` is `file`.
pub open spec fn listed(files: Seq<String>, file: Seq<char>) -> bool {
    exists|k: int| 0 <= k < files.len() && (#[trigger] files[k])@ == file
}

/// The first keygroup at or after `i` whose slot `slot` is empty.
pub open spec fn empty_slot_from(kgs: Seq<Keygroup>, slot: int, i: int) -> Option<int>
    decreases kgs.len() - i,
{
    if i < 0 || i >= kgs.len() {
        None
    } else if kgs[i].layers@[slot] is None {
        Some(i)
    } else {
        empty_slot_from(kgs, slot, i + 1)
    }
}

/// The layer made for a file: its root read from its name, the full
/// velocity range.
pub open spec fn named_layer(file: String) -> Layer {
    Layer {
        file,
        root: match file_pitch(file@) {
            Some(p) => Some(p as u8),
            None => None,
        },
        velocity: full_velocity(),
    }
}

/// The keygroups after `file` goes into slot `slot` of the first keygroup
/// where that slot is empty, or of a new keygroup with no range.
pub open spec fn file_added(kgs: Seq<Keygroup>, slot: int, file: String) -> Seq<Keygroup> {
    match empty_slot_from(kgs, slot, 0) {
        Some(i) => kgs.update(
            i,
            Keygroup { layers: vstd::array::spec_array_update(kgs[i].layers, slot, Some(named_layer(file))), ..kgs[i] },
        ),
        None => kgs.push(
            Keygroup {
                range: None,
                layers: vstd::array::spec_array_update([None, None, None, None], slot, Some(named_layer(file))),
            },
        ),
    }
}

/// The keygroups after the first `k` files are added in turn to slot
/// `slot`, skipping the files that slot already held in `kgs`.
pub open spec fn files_added(kgs: Seq<Keygroup>, slot: int, files: Seq<String>, k: int) -> Seq<Keygroup>
    decreases k,
{
    if k <= 0 {
        kgs
    } else if file_in_slot(kgs, slot, files[k - 1]@) {
        files_added(kgs, slot, files, k - 1)
    } else {
        file_added(files_added(kgs, slot, files, k - 1), slot, files[k - 1])
    }
}

proof fn lemma_empty_slot_bounds(kgs: Seq<Keygroup>, slot: int, i: int)
    requires
        0 <= i,
    ensures
        empty_slot_from(kgs, slot, i) matches Some(g) ==> i <= g < kgs.len(),
    decreases kgs.len() - i,
{
    if i < kgs.len() && kgs[i].layers@[slot] is Some {
        lemma_empty_slot_bounds(kgs, slot, i + 1);
    }
}

fn find_empty_slot(kgs: &Vec<Keygroup>, slot: usize) -> (r: Option<usize>)
    requires
        slot < 4,
    ensures
        r matches Some(i) ==> empty_slot_from(kgs@, slot as int, 0) == Some(i as int),
        r is None ==> empty_slot_from(kgs@, slot as int, 0) is None,
{
    let n = kgs.len();
    let mut i: usize = 0;
    while i < n
        invariant
            n == kgs@.len(),
            slot < 4,
            i <= n,
            empty_slot_from(kgs@, slot as int, 0) == empty_slot_from(kgs@, slot as int, i as int),
        decreases n - i,
    {
        if kgs[i].layers[slot].is_none() {
            return Some(i);
        }
        i = i + 1;
    }
    None
}

/// The files held in slot `slot`, in keygroup order.
fn files_in_slot(kgs: &Vec<Keygroup>, slot: usize) -> (r: Vec<String>)
    requires
        slot < 4,
    ensures
        forall|f: Seq<char>| #[trigger] listed(r@, f) == file_in_slot(kgs@, slot as int, f),
{
    let n = kgs.len();
    let mut r: Vec<String> = Vec::new();
    let mut i: usize = 0;
    while i < n
        invariant
            n == kgs@.len(),
            slot < 4,
            i <= n,
            forall|f: Seq<char>| #[trigger] listed(r@, f) == held_in(kgs@, slot as int, f, i as int),
        decreases n - i,
    {
        let ghost before = r@;
        match &kgs[i].layers[slot] {
            Some(l) => {
                r.push(l.file.clone());
            },
            None => {},
        }
        proof {
            assert forall|f: Seq<char>| #[trigger] listed(r@, f) == held_in(kgs@, slot as int, f, i + 1) by {
                if held_in(kgs@, slot as int, f, i + 1) {
                    let g = choose|g: int| 0 <= g < i + 1 && (#[trigger] kgs@[g].layers@[slot as int] matches Some(l) && l.file@ == f);
                    if g == i {
                        assert(r@[r@.len() - 1]@ == f);
                    } else {
                        assert(held_in(kgs@, slot as int, f, i as int));
                        assert(listed(before, f));
                        let k = choose|k: int| 0 <= k < before.len() && (#[trigger] before[k])@ == f;
                        assert(r@[k] == before[k]);
                    }
                }
                if listed(r@, f) {
                    let k = choose|k: int| 0 <= k < r@.len() && (#[trigger] r@[k])@ == f;
                    if k < before.len() {
                        assert(before[k] == r@[k]);
                        assert(listed(before, f));
                    } else {
                        assert(kgs@[i as int].layers@[slot as int] matches Some(l) && l.file@ == f);
                    }
                }
            }
        }
        i = i + 1;
    }
    r
}

fn contains_file(files: &Vec<String>, file: &String) -> (r: bool)
    ensures
        r == listed(files@, file@),
{
    let n = files.len();
    let mut k: usize = 0;
    while k < n
        invariant
            n == files@.len(),
            k <= n,
            forall|j: int| 0 <= j < k ==> (#[trigger] files@[j])@ != file@,
        decreases n - k,
    {
        if files[k] == *file {
            return true;
        }
        k = k + 1;
    }
    false
}

// ----- counts -----

/// The largest number of populated slots among the first `j` keygroups.
pub open spec fn max_layers(kgs: Seq<Keygroup>, j: int) -> int
    decreases j,
{
    if j <= 0 {
        0
    } else {
        let m = max_layers(kgs, j - 1);
        let c = populated(kgs[j - 1].layers@);
        if c > m {
            c
        } else {
            m
        }
    }
}

fn has_layer_exec(kg: &Keygroup) -> (r: bool)
    ensures
        r == has_layer(*kg),
{
    let r = kg.layers[0].is_some() || kg.layers[1].is_some() || kg.layers[2].is_some() || kg.layers[3].is_some();
    assert(r ==> kg.layers@[0] is Some || kg.layers@[1] is Some || kg.layers@[2] is Some || kg.layers@[3] is Some);
    r
}

fn same_slot_sample(a: &Keygroup, b: &Keygroup, slot: usize) -> (r: bool)
    requires
        slot < 4,
    ensures
        r == (slot_sample(*a, slot as int) == slot_sample(*b, slot as int)),
{
    let empty = String::new();
    let (file_a, root_a): (&String, Option<u8>) = match &a.layers[slot] {
        Some(l) => (&l.file, l.root),
        None => (&empty, None),
    };
    let (file_b, root_b): (&String, Option<u8>) = match &b.layers[slot] {
        Some(l) => (&l.file, l.root),
        None => (&empty, None),
    };
    let same_file = *file_a == *file_b;
    let r = same_file && root_a == root_b;
    assert(r == ((file_a@, root_a) == (file_b@, root_b)));
    r
}

fn samples_differ(before: &Vec<Keygroup>, after: &Vec<Keygroup>, slot: usize) -> (r: bool)
    requires
        slot < 4,
    ensures
        r == samples_changed(before@, after@, slot as int),
{
    if before.len() != after.len() {
        return true;
    }
    let m = before.len();
    let mut i: usize = 0;
    while i < m
        invariant
            m == before@.len(),
            m == after@.len(),
            slot < 4,
            i <= m,
            forall|k: int| 0 <= k < i ==> slot_sample(#[trigger] before@[k], slot as int) == slot_sample(after@[k], slot as int),
        decreases m - i,
    {
        if !same_slot_sample(&before[i], &after[i], slot) {
            return true;
        }
        i = i + 1;
    }
    false
}

fn primary_root_of(kg: &Keygroup) -> (r: Option<u8>)
    ensures
        r == primary_root(*kg),
{
    match &kg.layers[0] {
        Some(l) => l.root,
        None => None,
    }
}

fn sort_key_of(kg: &Keygroup) -> (r: u16)
    ensures
        r as int == sort_key(*kg),
        r < SORT_KEYS,
{
    let first = if kg.layers[0].is_some() {
        &kg.layers[0]
    } else if kg.layers[1].is_some() {
        &kg.layers[1]
    } else if kg.layers[2].is_some() {
        &kg.layers[2]
    } else {
        &kg.layers[3]
    };
    match first {
        None => 0,
        Some(l) => match l.root {
            None => 1,
            Some(r) => r as u16 + 2,
        },
    }
}

fn slot_has_root_exec(slot: &Option<Layer>, root: u8) -> (r: bool)
    ensures
        r == slot_has_root(*slot, root),
{
    match slot {
        Some(l) => l.root == Some(root),
        None => false,
    }
}

fn has_root_exec(kg: &Keygroup, root: u8) -> (r: bool)
    ensures
        r == has_root(*kg, root),
{
    let r = slot_has_root_exec(&kg.layers[0], root) || slot_has_root_exec(&kg.layers[1], root)
        || slot_has_root_exec(&kg.layers[2], root) || slot_has_root_exec(&kg.layers[3], root);
    assert(r ==> slot_has_root(kg.layers@[0], root) || slot_has_root(kg.layers@[1], root)
        || slot_has_root(kg.layers@[2], root) || slot_has_root(kg.layers@[3], root));
    r
}

proof fn lemma_group_from_bounds(kgs: Seq<Keygroup>, root: u8, i: int)
    ensures
        group_from(kgs, root, i) matches Some(g) ==> i <= g < kgs.len() && has_root(kgs[g], root),
    decreases kgs.len() - i,
{
    if 0 <= i < kgs.len() && !has_root(kgs[i], root) {
        lemma_group_from_bounds(kgs, root, i + 1);
    }
}

fn find_group(kgs: &Vec<Keygroup>, root: u8) -> (r: Option<usize>)
    ensures
        r matches Some(i) ==> group_from(kgs@, root, 0) == Some(i as int),
        r is None ==> group_from(kgs@, root, 0) is None,
{
    let n = kgs.len();
    let mut i: usize = 0;
    while i < n
        invariant
            n == kgs@.len(),
            i <= n,
            group_from(kgs@, root, 0) == group_from(kgs@, root, i as int),
        decreases n - i,
    {
        if has_root_exec(&kgs[i], root) {
            return Some(i);
        }
        i = i + 1;
    }
    None
}

impl KeygroupProgram {
    /// An empty program.
    pub fn new(name: String) -> (r: KeygroupProgram)
        ensures
            r.name == name,
            r.keygroups@ == Seq::<Keygroup>::empty(),
    {
        KeygroupProgram { name, keygroups: Vec::new() }
    }

    /// Puts a sample file into its layer slot: in the first keygroup that
    /// already holds a layer of the same root, or in a new keygroup.
    pub fn insert_layer_file(&mut self, file: LayerFile)
        requires
            file.layer < 4,
        ensures
            final(self).name == old(self).name,
            final(self).keygroups@ == inserted(old(self).keygroups@, file),
    {
        let ghost kgs = self.keygroups@;
        let ghost spec_file = file;
        let n = self.keygroups.len();
        let found: Option<usize> = match file.root {
            Some(root) => find_group(&self.keygroups, root),
            None => None,
        };
        proof {
            if let Some(root) = file.root {
                lemma_group_from_bounds(kgs, root, 0);
            }
        }
        assert(found matches Some(i) ==> matching_group(kgs, file.root) == Some(i as int));
        assert(found is None ==> matching_group(kgs, file.root) is None);
        let slot = file.layer;
        let layer = Layer { file: file.file, root: file.root, velocity: InclusiveRange { start: 0, end: MAX_PITCH } };
        assert(layer == file_layer(spec_file));
        match found {
            Some(i) => {
                self.keygroups[i].layers[slot] = Some(layer);
            },
            None => {
                let mut layers: [Option<Layer>; 4] = [None, None, None, None];
                layers[slot] = Some(layer);
                self.keygroups.push(Keygroup { range: None, layers });
            },
        }
    }

    /// Adds files to slot `layer`: a file that slot already holds is
    /// skipped; each other file goes, with the root read from its name, into
    /// the first keygroup whose slot is empty, or into a new keygroup.
    pub fn add_files(&mut self, layer: usize, files: Vec<String>)
        requires
            layer < 4,
        ensures
            final(self).name == old(self).name,
            final(self).keygroups@ == files_added(old(self).keygroups@, layer as int, files@, files@.len() as int),
    {
        let ghost kgs0 = self.keygroups@;
        let existing = files_in_slot(&self.keygroups, layer);
        let n = files.len();
        let mut k: usize = 0;
        while k < n
            invariant
                n == files@.len(),
                layer < 4,
                k <= n,
                self.name == old(self).name,
                kgs0 == old(self).keygroups@,
                forall|f: Seq<char>| #[trigger] listed(existing@, f) == file_in_slot(kgs0, layer as int, f),
                self.keygroups@ == files_added(kgs0, layer as int, files@, k as int),
            decreases n - k,
        {
            let file = &files[k];
            if !contains_file(&existing, file) {
                let new_layer = Layer::from_file(file.clone());
                assert(new_layer == named_layer(files@[k as int]));
                let ghost before = self.keygroups@;
                match find_empty_slot(&self.keygroups, layer) {
                    Some(i) => {
                        proof {
                            lemma_empty_slot_bounds(before, layer as int, 0);
                        }
                        self.keygroups[i].layers[layer] = Some(new_layer);
                    },
                    None => {
                        let mut layers: [Option<Layer>; 4] = [None, None, None, None];
                        layers[layer] = Some(new_layer);
                        self.keygroups.push(Keygroup { range: None, layers });
                    },
                }
            }
            k = k + 1;
        }
    }

    /// Inserts the files one after the other, as `insert_layer_file` does.
    pub fn insert_layer_files(&mut self, files: Vec<LayerFile>)
        requires
            forall|k: int| 0 <= k < files@.len() ==> (#[trigger] files@[k]).layer < 4,
        ensures
            final(self).name == old(self).name,
            final(self).keygroups@ == inserted_all(old(self).keygroups@, files@, files@.len() as int),
    {
        let ghost all = files@;
        let n = files.len();
        let mut k: usize = 0;
        while k < n
            invariant
                n == all.len(),
                k <= n,
                files@ == all,
                forall|l: int| 0 <= l < n ==> (#[trigger] all[l]).layer < 4,
                self.name == old(self).name,
                self.keygroups@ == inserted_all(old(self).keygroups@, all, k as int),
            decreases n - k,
        {
            let file = files[k].clone();
            self.insert_layer_file(file);
            k = k + 1;
        }
    }
    /// Sorts the keygroups by the root of their first populated layer
    /// (see `sort_key`); keygroups of equal key keep their order.
    pub fn sort_keygroups(&mut self)
        ensures
            final(self).name == old(self).name,
            final(self).keygroups@ == sorted_keygroups(old(self).keygroups@),
            forall|i: int, j: int|
                0 <= i < j < final(self).keygroups@.len() ==> sort_key(#[trigger] final(self).keygroups@[i])
                    <= sort_key(#[trigger] final(self).keygroups@[j]),
            final(self).keygroups@.to_multiset() == old(self).keygroups@.to_multiset(),
    {
        proof {
            lemma_sorted_keygroups(self.keygroups@);
        }
        let ghost kgs = self.keygroups@;
        let n = self.keygroups.len();
        let mut sorted: Vec<Keygroup> = Vec::new();
        let mut key: u16 = 0;
        while key < SORT_KEYS
            invariant
                n == kgs.len(),
                kgs == self.keygroups@,
                key <= SORT_KEYS,
                sorted@ == sorted_below(kgs, key as int),
            decreases SORT_KEYS - key,
        {
            let mut i: usize = 0;
            while i < n
                invariant
                    n == kgs.len(),
                    kgs == self.keygroups@,
                    key < SORT_KEYS,
                    i <= n,
                    sorted@ == sorted_below(kgs, key as int) + key_bucket(kgs, key as int, i as int),
                decreases n - i,
            {
                if sort_key_of(&self.keygroups[i]) == key {
                    sorted.push(self.keygroups[i].clone());
                    assert(sorted@ =~= sorted_below(kgs, key as int) + key_bucket(kgs, key as int, i + 1));
                } else {
                    assert(key_bucket(kgs, key as int, i + 1) == key_bucket(kgs, key as int, i as int));
                }
                i = i + 1;
            }
            key = key + 1;
        }
        self.keygroups = sorted;
    }

    /// Computes the range of every keygroup whose first slot holds a layer
    /// with a root: the roots are sorted (equal roots keep their order),
    /// `build_ranges` splits the keyboard among them, and each range goes
    /// back to its keygroup. Other keygroups are left as they are.
    pub fn guess_ranges(&mut self, preference: u16)
        ensures
            final(self).name == old(self).name,
            final(self).keygroups@ == guessed(old(self).keygroups@, preference),
    {
        let ghost kgs = self.keygroups@;
        let n = self.keygroups.len();
        let mut order: Vec<usize> = Vec::new();
        let mut roots: Vec<u8> = Vec::new();
        let mut root: u16 = 0;
        while root <= MAX_PITCH as u16
            invariant
                n == kgs.len(),
                kgs == self.keygroups@,
                self.name == old(self).name,
                root <= MAX_PITCH + 1,
                order@.map_values(|x: usize| x as int) == order_below(kgs, root as int),
                roots@.len() == order@.len(),
                forall|k: int| 0 <= k < order@.len() ==> #[trigger] order@[k] < n,
                forall|k: int| 0 <= k < order@.len() ==> primary_root(kgs[#[trigger] order@[k] as int]) == Some(roots@[k]),
                forall|k: int| 0 <= k < roots@.len() ==> #[trigger] roots@[k] <= MAX_PITCH,
            decreases MAX_PITCH + 1 - root,
        {
            let mut i: usize = 0;
            while i < n
                invariant
                    n == kgs.len(),
                    kgs == self.keygroups@,
                    root <= MAX_PITCH,
                    i <= n,
                    order@.map_values(|x: usize| x as int) == order_below(kgs, root as int) + root_bucket(kgs, root as int, i as int),
                    roots@.len() == order@.len(),
                    forall|k: int| 0 <= k < order@.len() ==> #[trigger] order@[k] < n,
                    forall|k: int| 0 <= k < order@.len() ==> primary_root(kgs[#[trigger] order@[k] as int]) == Some(roots@[k]),
                    forall|k: int| 0 <= k < roots@.len() ==> #[trigger] roots@[k] <= MAX_PITCH,
                decreases n - i,
            {
                if primary_root_of(&self.keygroups[i]) == Some(root as u8) {
                    let ghost before = order@;
                    order.push(i);
                    roots.push(root as u8);
                    assert(order@.map_values(|x: usize| x as int) =~= before.map_values(|x: usize| x as int).push(i as int));
                } else {
                    assert(root_bucket(kgs, root as int, i + 1) == root_bucket(kgs, root as int, i as int));
                }
                i = i + 1;
            }
            root = root + 1;
        }
        let ghost ord = order@.map_values(|x: usize| x as int);
        assert(ord == range_order(kgs));
        assert(roots@ =~= sorted_roots(kgs));
        let ranges = build_ranges(&roots, preference);
        let m = order.len();
        let mut k: usize = 0;
        while k < m
            invariant
                n == kgs.len(),
                m == order@.len(),
                ord == order@.map_values(|x: usize| x as int),
                ranges@.len() == m,
                forall|l: int| 0 <= l < m ==> #[trigger] order@[l] < n,
                k <= m,
                self.name == old(self).name,
                self.keygroups@ == assign_ranges(kgs, ord, ranges@, k as int),
            decreases m - k,
        {
            proof {
                lemma_assign_shape(kgs, ord, ranges@, k as int);
            }
            let idx = order[k];
            let ghost before = self.keygroups@;
            self.keygroups[idx].range = Some(ranges[k]);
            assert(self.keygroups@ =~= set_range(before, ord[k as int], ranges@[k as int]));
            k = k + 1;
        }
    }

    /// Whether every keygroup has its range.
    pub fn can_export(&self) -> (r: bool)
        ensures
            r == forall|i: int| 0 <= i < self.keygroups@.len() ==> (#[trigger] self.keygroups@[i]).range is Some,
    {
        let n = self.keygroups.len();
        let mut i: usize = 0;
        while i < n
            invariant
                n == self.keygroups@.len(),
                i <= n,
                forall|j: int| 0 <= j < i ==> (#[trigger] self.keygroups@[j]).range is Some,
            decreases n - i,
        {
            if self.keygroups[i].range.is_none() {
                return false;
            }
            i = i + 1;
        }
        true
    }

    /// The largest number of populated slots in a keygroup (`0` for none).
    pub fn layer_count(&self) -> (r: usize)
        ensures
            r == max_layers(self.keygroups@, self.keygroups@.len() as int),
    {
        let n = self.keygroups.len();
        let mut best: usize = 0;
        let mut i: usize = 0;
        while i < n
            invariant
                n == self.keygroups@.len(),
                i <= n,
                best == max_layers(self.keygroups@, i as int),
            decreases n - i,
        {
            let c = self.keygroups[i].layer_count();
            if c > best {
                best = c;
            }
            i = i + 1;
        }
        best
    }

    /// Applies the velocity mode to every keygroup.
    pub fn set_velocity_layer_mode(&mut self, mode: &LayerVelocityMode)
        ensures
            final(self).name == old(self).name,
            final(self).keygroups@.len() == old(self).keygroups@.len(),
            forall|i: int|
                0 <= i < old(self).keygroups@.len() ==> (#[trigger] final(self).keygroups@[i]).range
                    == old(self).keygroups@[i].range && final(self).keygroups@[i].layers@
                    == with_velocity_mode(old(self).keygroups@[i].layers@, *mode),
    {
        let n = self.keygroups.len();
        let mut i: usize = 0;
        while i < n
            invariant
                n == self.keygroups@.len(),
                n == old(self).keygroups@.len(),
                i <= n,
                self.name == old(self).name,
                forall|j: int| i <= j < n ==> self.keygroups@[j] == old(self).keygroups@[j],
                forall|j: int|
                    0 <= j < i ==> (#[trigger] self.keygroups@[j]).range == old(self).keygroups@[j].range
                        && self.keygroups@[j].layers@ == with_velocity_mode(old(self).keygroups@[j].layers@, *mode),
            decreases n - i,
        {
            self.keygroups[i].set_velocity_layer_mode(mode);
            i = i + 1;
        }
    }

    /// The program as an XPM document (see `export_document`).
    pub fn export(&self) -> (r: Result<Vec<u8>, ExportError>)
        ensures
            first_error(self.keygroups@, 0) matches Some(e) ==> r == Err::<Vec<u8>, ExportError>(e),
            first_error(self.keygroups@, 0) is None ==> (r is Ok || r == Err::<Vec<u8>, ExportError>(
                ExportError::Write)),
    {
        export_document(self.name.as_str(), &self.keygroups)
    }

    /// Takes edited keygroups for slot `layer`: keygroups left without any
    /// layer are dropped, and when the edit changed a file or a root in that
    /// slot (or the number of keygroups), the ranges are guessed again.
    pub fn update(&mut self, layer: usize, keygroups: Vec<Keygroup>, preference: u16)
        requires
            layer < 4,
        ensures
            final(self).name == old(self).name,
            final(self).keygroups@ == if samples_changed(
                old(self).keygroups@,
                with_layers(keygroups@, keygroups@.len() as int),
                layer as int,
            ) {
                guessed(with_layers(keygroups@, keygroups@.len() as int), preference)
            } else {
                with_layers(keygroups@, keygroups@.len() as int)
            },
    {
        let n = keygroups.len();
        let mut kept: Vec<Keygroup> = Vec::new();
        let mut i: usize = 0;
        while i < n
            invariant
                n == keygroups@.len(),
                i <= n,
                kept@ == with_layers(keygroups@, i as int),
            decreases n - i,
        {
            if has_layer_exec(&keygroups[i]) {
                kept.push(keygroups[i].clone());
            }
            i = i + 1;
        }
        let changed = samples_differ(&self.keygroups, &kept, layer);
        self.keygroups = kept;
        if changed {
            self.guess_ranges(preference);
        }
    }

    /// Re-sorts slot `slot` (see `slot_sorted`) of the keygroups.
    fn sort_slot(&mut self, slot: usize)
        requires
            slot < 4,
        ensures
            final(self).name == old(self).name,
            final(self).keygroups@ == slot_sorted(old(self).keygroups@, slot as int),
    {
        let ghost kgs = self.keygroups@;
        let n = self.keygroups.len();
        let mut pool: Vec<Option<Layer>> = Vec::new();
        let mut i: usize = 0;
        while i < n
            invariant
                n == kgs.len(),
                kgs == self.keygroups@,
                slot < 4,
                i <= n,
                pool@ == slot_contents(kgs, slot as int).subrange(0, i as int),
            decreases n - i,
        {
            pool.push(clone_slot_of(&self.keygroups[i].layers[slot]));
            i = i + 1;
            assert(pool@ =~= slot_contents(kgs, slot as int).subrange(0, i as int));
        }
        assert(pool@ =~= slot_contents(kgs, slot as int));
        let mut got: Vec<Option<Layer>> = Vec::new();
        let mut i: usize = 0;
        while i < n
            invariant
                n == kgs.len(),
                kgs == self.keygroups@,
                i <= n,
                (got@, pool@) == fitted(kgs, slot as int, i as int),
            decreases n - i,
        {
            match self.keygroups[i].range {
                Some(range) => match find_fit(&pool, range) {
                    Some(p) => {
                        proof {
                            lemma_first_fit_bounds(pool@, range, 0);
                        }
                        let taken = pool.remove(p);
                        got.push(taken);
                    },
                    None => {
                        got.push(None);
                    },
                },
                None => {
                    got.push(None);
                },
            }
            i = i + 1;
        }
        proof {
            lemma_fitted_len(kgs, slot as int, n as int);
        }
        let mut out: Vec<Option<Layer>> = Vec::new();
        let mut used: usize = 0;
        let mut i: usize = 0;
        while i < n
            invariant
                n == kgs.len(),
                got@.len() == n,
                i <= n,
                (out@, used as int) == filled(got@, pool@, i as int),
                used <= pool@.len(),
            decreases n - i,
        {
            proof {
                lemma_filled(got@, pool@, i as int);
            }
            if got[i].is_none() && used < pool.len() {
                out.push(clone_slot_of(&pool[used]));
                used = used + 1;
            } else {
                out.push(clone_slot_of(&got[i]));
            }
            i = i + 1;
        }
        proof {
            lemma_filled(got@, pool@, n as int);
        }
        assert(out@ == refitted_slot(kgs, slot as int));
        let mut i: usize = 0;
        while i < n
            invariant
                n == kgs.len(),
                out@.len() == n,
                out@ == refitted_slot(kgs, slot as int),
                slot < 4,
                i <= n,
                self.name == old(self).name,
                self.keygroups@.len() == n,
                forall|k: int| i <= k < n ==> self.keygroups@[k] == kgs[k],
                forall|k: int| 0 <= k < i ==> self.keygroups@[k] == #[trigger] slot_sorted(kgs, slot as int)[k],
            decreases n - i,
        {
            let content = clone_slot_of(&out[i]);
            self.keygroups[i].layers[slot] = content;
            i = i + 1;
        }
        assert(self.keygroups@ =~= slot_sorted(kgs, slot as int));
    }

    /// Sorts the keygroups by slot `layer`. For the first slot the keygroups
    /// themselves are sorted (see `sort_keygroups`) and the other slots are
    /// sorted after them; for another slot, each keygroup with a range takes
    /// the first sample of that slot whose root lies in its range, and the
    /// samples left over go, in order, to the keygroups that took none.
    pub fn sort_layer(&mut self, layer: usize)
        requires
            layer < 4,
        ensures
            final(self).name == old(self).name,
            final(self).keygroups@ == layer_sorted(old(self).keygroups@, layer as int),
    {
        if layer == 0 {
            self.sort_keygroups();
            self.sort_slot(1);
            self.sort_slot(2);
            self.sort_slot(3);
        } else {
            self.sort_slot(layer);
        }
    }
}

impl Default for KeygroupProgram {
    fn default() -> (r: KeygroupProgram)
        ensures
            r.name@ == "My Keygroup Program"@,
            r.keygroups@ == Seq::<Keygroup>::empty(),
    {
        KeygroupProgram { name: String::from_str("My Keygroup Program"), keygroups: Vec::new() }
    }
}

} // verus!
