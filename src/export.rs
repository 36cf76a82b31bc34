//! Export of a keygroup program to an XPM document.
//!
//! The values of every exported field are computed first (`program_fields`),
//! then written into a copy of the reference template.
use vstd::prelude::*;

use crate::keygroup::Keygroup;
use crate::layer::Layer;
use crate::text::{decimal, file_stem, sample_name, to_decimal};
use xmltree::{Element, EmitterConfig, XMLNode};

verus! {

/// Why a program could not be exported.
#[derive(Debug, Clone, Copy, PartialEq, Eq, Structural)]
pub enum ExportError {
    /// A keygroup has no range yet.
    MissingRange,
    /// A layer has no root pitch.
    MissingRoot,
    /// A layer's file has no sample name (see `file_stem`).
    MissingSampleName,
    /// The template is not well-formed XML.
    TemplateParse,
    /// The template lacks a node that the export fills in.
    MissingNode,
    /// The template's keygroup does not hold exactly four layers.
    LayerCount,
    /// The document could not be written out.
    Write,
}

/// The exported fields of one layer.
#[derive(Debug, PartialEq, Eq)]
pub struct LayerFields {
    pub sample_name: String,
    pub sample_file: String,
    pub velocity_start: String,
    pub velocity_end: String,
    pub root_note: String,
}

/// The exported fields of one keygroup.
#[derive(Debug, PartialEq, Eq)]
pub struct InstrumentFields {
    /// 1-based position of the keygroup.
    pub number: String,
    pub low_note: String,
    pub high_note: String,
    /// One entry per layer slot; empty slots stay as the template has them.
    pub layers: Vec<Option<LayerFields>>,
}

/// The exported fields of a program.
#[derive(Debug, PartialEq, Eq)]
pub struct ProgramFields {
    pub name: String,
    pub keygroup_count: String,
    pub instruments: Vec<InstrumentFields>,
}

/// Why a slot cannot be exported, if it cannot.
pub open spec fn slot_error(slot: Option<Layer>) -> Option<ExportError> {
    match slot {
        None => None,
        Some(l) => if l.root is None {
            Some(ExportError::MissingRoot)
        } else if file_stem(l.file@) is None {
            Some(ExportError::MissingSampleName)
        } else {
            None
        },
    }
}

/// Why a keygroup cannot be exported, if it cannot: no range, or the error
/// of its first slot that cannot be exported.
pub open spec fn keygroup_error(kg: Keygroup) -> Option<ExportError> {
    if kg.range is None {
        Some(ExportError::MissingRange)
    } else if slot_error(kg.layers@[0]) is Some {
        slot_error(kg.layers@[0])
    } else if slot_error(kg.layers@[1]) is Some {
        slot_error(kg.layers@[1])
    } else if slot_error(kg.layers@[2]) is Some {
        slot_error(kg.layers@[2])
    } else {
        slot_error(kg.layers@[3])
    }
}

/// The error of the first keygroup from `i` on that cannot be exported.
pub open spec fn first_error(kgs: Seq<Keygroup>, i: int) -> Option<ExportError>
    decreases kgs.len() - i,
{
    if i < 0 || i >= kgs.len() {
        None
    } else if keygroup_error(kgs[i]) is Some {
        keygroup_error(kgs[i])
    } else {
        first_error(kgs, i + 1)
    }
}

/// The fields of a layer: its sample name and file, its velocity bounds and
/// its root pitch plus one (the format counts pitches from one).
pub open spec fn layer_fields_match(f: LayerFields, l: Layer) -> bool {
    &&& file_stem(l.file@) == Some(f.sample_name@)
    &&& f.sample_file@ == l.file@
    &&& f.velocity_start@ == decimal(l.velocity.start as nat)
    &&& f.velocity_end@ == decimal(l.velocity.end as nat)
    &&& f.root_note@ == decimal((l.root->0 + 1) as nat)
}

pub open spec fn slot_fields_match(f: Option<LayerFields>, slot: Option<Layer>) -> bool {
    match (f, slot) {
        (None, None) => true,
        (Some(f), Some(l)) => layer_fields_match(f, l),
        _ => false,
    }
}

/// The fields of the keygroup at 1-based position `number`.
pub open spec fn instrument_fields_match(f: InstrumentFields, kg: Keygroup, number: nat) -> bool {
    &&& f.number@ == decimal(number)
    &&& f.low_note@ == decimal(kg.range->0.start as nat)
    &&& f.high_note@ == decimal(kg.range->0.end as nat)
    &&& f.layers@.len() == 4
    &&& forall|j: int| 0 <= j < 4 ==> slot_fields_match(#[trigger] f.layers@[j], kg.layers@[j])
}

/// The fields of a program named `name` with keygroups `kgs`.
pub open spec fn program_fields_match(f: ProgramFields, name: Seq<char>, kgs: Seq<Keygroup>) -> bool {
    &&& f.name@ == name
    &&& f.keygroup_count@ == decimal(kgs.len())
    &&& f.instruments@.len() == kgs.len()
    &&& forall|i: int|
        0 <= i < kgs.len() ==> instrument_fields_match(#[trigger] f.instruments@[i], kgs[i], (i + 1) as nat)
}

fn slot_fields(slot: &Option<Layer>) -> (r: Result<Option<LayerFields>, ExportError>)
    ensures
        r matches Err(e) ==> slot_error(*slot) == Some(e),
        r is Ok <==> slot_error(*slot) is None,
        r matches Ok(f) ==> slot_fields_match(f, *slot),
{
    match slot {
        None => Ok(None),
        Some(l) => match l.root {
            None => Err(ExportError::MissingRoot),
            Some(root) => match sample_name(l.file.as_str()) {
                None => Err(ExportError::MissingSampleName),
                Some(stem) => Ok(
                    Some(
                        LayerFields {
                            sample_name: stem,
                            sample_file: l.file.clone(),
                            velocity_start: to_decimal(l.velocity.start as usize),
                            velocity_end: to_decimal(l.velocity.end as usize),
                            root_note: to_decimal(root as usize + 1),
                        },
                    ),
                ),
            },
        },
    }
}

fn instrument_fields(kg: &Keygroup, number: usize) -> (r: Result<InstrumentFields, ExportError>)
    ensures
        r matches Err(e) ==> keygroup_error(*kg) == Some(e),
        r is Ok <==> keygroup_error(*kg) is None,
        r matches Ok(f) ==> instrument_fields_match(f, *kg, number as nat),
{
    let range = match kg.range {
        None => return Err(ExportError::MissingRange),
        Some(range) => range,
    };
    let mut layers: Vec<Option<LayerFields>> = Vec::new();
    let mut j: usize = 0;
    while j < 4
        invariant
            j <= 4,
            kg.range == Some(range),
            layers@.len() == j,
            forall|k: int| 0 <= k < j ==> slot_error(#[trigger] kg.layers@[k]) is None,
            forall|k: int| 0 <= k < j ==> slot_fields_match(#[trigger] layers@[k], kg.layers@[k]),
        decreases 4 - j,
    {
        match slot_fields(&kg.layers[j]) {
            Err(e) => {
                assert(j == 0 || j == 1 || j == 2 || j == 3);
                assert(j >= 1 ==> slot_error(kg.layers@[0]) is None);
                assert(j >= 2 ==> slot_error(kg.layers@[1]) is None);
                assert(j >= 3 ==> slot_error(kg.layers@[2]) is None);
                return Err(e);
            },
            Ok(f) => {
                layers.push(f);
            },
        }
        j = j + 1;
    }
    assert(slot_error(kg.layers@[0]) is None && slot_error(kg.layers@[1]) is None && slot_error(kg.layers@[2]) is None
        && slot_error(kg.layers@[3]) is None);
    Ok(
        InstrumentFields {
            number: to_decimal(number),
            low_note: to_decimal(range.start as usize),
            high_note: to_decimal(range.end as usize),
            layers,
        },
    )
}

/// The values of every field of the exported program, or the first reason
/// (by keygroup, then by slot) why it cannot be exported.
pub fn program_fields(name: &str, keygroups: &Vec<Keygroup>) -> (r: Result<ProgramFields, ExportError>)
    ensures
        r matches Err(e) ==> first_error(keygroups@, 0) == Some(e),
        r is Ok <==> first_error(keygroups@, 0) is None,
        r matches Ok(f) ==> program_fields_match(f, name@, keygroups@),
{
    let n = keygroups.len();
    let mut instruments: Vec<InstrumentFields> = Vec::new();
    let mut i: usize = 0;
    while i < n
        invariant
            n == keygroups@.len(),
            i <= n,
            instruments@.len() == i,
            first_error(keygroups@, 0) == first_error(keygroups@, i as int),
            forall|k: int|
                0 <= k < i ==> instrument_fields_match(#[trigger] instruments@[k], keygroups@[k], (k + 1) as nat),
        decreases n - i,
    {
        match instrument_fields(&keygroups[i], i + 1) {
            Err(e) => {
                return Err(e);
            },
            Ok(f) => {
                instruments.push(f);
            },
        }
        i = i + 1;
    }
    Ok(ProgramFields { name: String::from_str(name), keygroup_count: to_decimal(n), instruments })
}

/// The reference document: one keygroup with four layers, copied once per
/// keygroup of the exported program.
pub const REFERENCE_TEMPLATE: &'static str = "<?xml version=\"1.0\" encoding=\"UTF-8\"?>
<MPCVObject>
  <Version>
    <File_Version>2</File_Version>
    <Application>MPC-V</Application>
  </Version>
  <Program type=\"Keygroup\">
    <ProgramName></ProgramName>
    <KeygroupNumKeygroups>1</KeygroupNumKeygroups>
    <Instruments>
      <Instrument number=\"1\">
        <LowNote>0</LowNote>
        <HighNote>127</HighNote>
        <Layers>
          <Layer number=\"1\"><Active>True</Active><VelStart>0</VelStart><VelEnd>127</VelEnd><SampleName></SampleName><SampleFile></SampleFile><RootNote>0</RootNote><KeyTrack>True</KeyTrack></Layer>
          <Layer number=\"2\"><Active>True</Active><VelStart>0</VelStart><VelEnd>127</VelEnd><SampleName></SampleName><SampleFile></SampleFile><RootNote>0</RootNote><KeyTrack>True</KeyTrack></Layer>
          <Layer number=\"3\"><Active>True</Active><VelStart>0</VelStart><VelEnd>127</VelEnd><SampleName></SampleName><SampleFile></SampleFile><RootNote>0</RootNote><KeyTrack>True</KeyTrack></Layer>
          <Layer number=\"4\"><Active>True</Active><VelStart>0</VelStart><VelEnd>127</VelEnd><SampleName></SampleName><SampleFile></SampleFile><RootNote>0</RootNote><KeyTrack>True</KeyTrack></Layer>
        </Layers>
      </Instrument>
    </Instruments>
  </Program>
</MPCVObject>
";

#[verifier::external_type_specification]
#[verifier::external_body]
pub struct ExElement(xmltree::Element);

#[verifier::external_type_specification]
#[verifier::external_body]
pub struct ExParseError(xmltree::ParseError);

#[verifier::external_type_specification]
#[verifier::external_body]
pub struct ExWriteError(xmltree::Error);

// ----- what the export reads of an element -----

/// The element's name.
pub uninterp spec fn element_name(e: Element) -> Seq<char>;

/// The text that `Element::get_text` reads from an element.
pub uninterp spec fn element_text(e: Element) -> Option<Seq<char>>;

/// The value of an attribute of an element.
pub uninterp spec fn element_attribute(e: Element, key: Seq<char>) -> Option<Seq<char>>;

/// The child elements of an element, in order.
pub uninterp spec fn element_children(e: Element) -> Seq<Element>;

/// Whether `Element::parse` reads an element from this text.
pub uninterp spec fn parses(text: Seq<char>) -> bool;

/// The element that `Element::parse` reads from this text.
pub uninterp spec fn parsed_document(text: Seq<char>) -> Element;

/// The first of `children` from `i` on whose name is `name`.
pub open spec fn first_named(children: Seq<Element>, name: Seq<char>, i: int) -> Option<int>
    decreases children.len() - i,
{
    if i < 0 || i >= children.len() {
        None
    } else if element_name(children[i]) == name {
        Some(i)
    } else {
        first_named(children, name, i + 1)
    }
}

/// The first child element named `name`.
pub open spec fn child_of(e: Element, name: Seq<char>) -> Option<Element> {
    match first_named(element_children(e), name, 0) {
        Some(k) => Some(element_children(e)[k]),
        None => None,
    }
}

/// The text of the first child element named `name`.
pub open spec fn text_of(e: Element, name: Seq<char>) -> Option<Seq<char>> {
    match child_of(e, name) {
        Some(c) => element_text(c),
        None => None,
    }
}

/// Same name, text and attributes.
pub open spec fn same_shell(a: Element, b: Element) -> bool {
    &&& element_name(a) == element_name(b)
    &&& element_text(a) == element_text(b)
    &&& forall|key: Seq<char>| #[trigger] element_attribute(a, key) == element_attribute(b, key)
}

/// A layer placeholder: it has every field a layer fills in.
pub open spec fn layer_shape(e: Element) -> bool {
    &&& child_of(e, "SampleName"@) is Some
    &&& child_of(e, "SampleFile"@) is Some
    &&& child_of(e, "VelStart"@) is Some
    &&& child_of(e, "VelEnd"@) is Some
    &&& child_of(e, "RootNote"@) is Some
}

/// The layers of a keygroup element.
pub open spec fn layers_of(e: Element) -> Seq<Element> {
    element_children(child_of(e, "Layers"@)->0)
}

/// A keygroup placeholder: note bounds and four layer placeholders.
pub open spec fn instrument_shape(e: Element) -> bool {
    &&& child_of(e, "LowNote"@) is Some
    &&& child_of(e, "HighNote"@) is Some
    &&& child_of(e, "Layers"@) is Some
    &&& layers_of(e).len() == 4
    &&& forall|j: int|
        0 <= j < 4 ==> element_name(#[trigger] layers_of(e)[j]) == "Layer"@ && layer_shape(layers_of(e)[j])
}

/// The program element of a document.
pub open spec fn program_of(doc: Element) -> Element {
    child_of(doc, "Program"@)->0
}

/// The keygroup list of a document.
pub open spec fn instruments_of(doc: Element) -> Seq<Element> {
    element_children(child_of(program_of(doc), "Instruments"@)->0)
}

/// The keygroup placeholder of a template.
pub open spec fn template_instrument(doc: Element) -> Element {
    instruments_of(doc)[0]
}

/// A template the export can fill: a program with a name, a keygroup count
/// and a keygroup list that holds one keygroup placeholder.
pub open spec fn template_shape(doc: Element) -> bool {
    &&& child_of(doc, "Program"@) is Some
    &&& child_of(program_of(doc), "ProgramName"@) is Some
    &&& child_of(program_of(doc), "KeygroupNumKeygroups"@) is Some
    &&& child_of(program_of(doc), "Instruments"@) is Some
    &&& instruments_of(doc).len() == 1
    &&& element_name(template_instrument(doc)) == "Instrument"@
    &&& instrument_shape(template_instrument(doc))
}

/// The template text reads as a template the export can fill.
pub open spec fn usable_template(text: Seq<char>) -> bool {
    parses(text) && template_shape(parsed_document(text))
}

// ----- what the exported document holds -----

/// A filled layer element holds the layer's fields.
pub open spec fn layer_written(e: Element, l: Layer) -> bool {
    &&& element_name(e) == "Layer"@
    &&& file_stem(l.file@) matches Some(stem) && text_of(e, "SampleName"@) == Some(stem)
    &&& text_of(e, "SampleFile"@) == Some(l.file@)
    &&& text_of(e, "VelStart"@) == Some(decimal(l.velocity.start as nat))
    &&& text_of(e, "VelEnd"@) == Some(decimal(l.velocity.end as nat))
    &&& text_of(e, "RootNote"@) == Some(decimal((l.root->0 + 1) as nat))
}

/// The layer element of a slot: the slot's layer written into it, or, for
/// an empty slot, the template's placeholder as it was.
pub open spec fn slot_written(e: Element, slot: Option<Layer>, placeholder: Element) -> bool {
    match slot {
        Some(l) => layer_written(e, l),
        None => e == placeholder,
    }
}

/// The keygroup element at 1-based position `number` holds the keygroup.
pub open spec fn instrument_written(e: Element, kg: Keygroup, number: nat, placeholder: Element) -> bool {
    &&& element_name(e) == "Instrument"@
    &&& element_attribute(e, "number"@) == Some(decimal(number))
    &&& text_of(e, "LowNote"@) == Some(decimal(kg.range->0.start as nat))
    &&& text_of(e, "HighNote"@) == Some(decimal(kg.range->0.end as nat))
    &&& child_of(e, "Layers"@) is Some
    &&& layers_of(e).len() == 4
    &&& forall|j: int|
        0 <= j < 4 ==> slot_written(#[trigger] layers_of(e)[j], kg.layers@[j], layers_of(placeholder)[j])
}

/// The document holds the program: its name and keygroup count, and one
/// keygroup element per keygroup, in order, filled from the template's
/// placeholder (which is not kept).
pub open spec fn document_written(doc: Element, name: Seq<char>, kgs: Seq<Keygroup>, template: Element) -> bool {
    &&& child_of(doc, "Program"@) is Some
    &&& text_of(program_of(doc), "ProgramName"@) == Some(name)
    &&& text_of(program_of(doc), "KeygroupNumKeygroups"@) == Some(decimal(kgs.len()))
    &&& child_of(program_of(doc), "Instruments"@) is Some
    &&& instruments_of(doc).len() == kgs.len()
    &&& forall|i: int|
        0 <= i < kgs.len() ==> instrument_written(
            #[trigger] instruments_of(doc)[i],
            kgs[i],
            (i + 1) as nat,
            template_instrument(template),
        )
}

/// Errors that the template, not the program, is the cause of.
pub open spec fn template_error(e: ExportError) -> bool {
    e == ExportError::TemplateParse || e == ExportError::MissingNode || e == ExportError::LayerCount
}

// ----- facts on the first child of a name -----

proof fn lemma_first_named(children: Seq<Element>, name: Seq<char>, i: int)
    requires
        0 <= i,
    ensures
        first_named(children, name, i) matches Some(k) ==> i <= k < children.len() && element_name(children[k]) == name,
        first_named(children, name, i) is None ==> forall|j: int| i <= j < children.len() ==> element_name(#[trigger] children[j]) != name,
    decreases children.len() - i,
{
    if i < children.len() && element_name(children[i]) != name {
        lemma_first_named(children, name, i + 1);
    }
}

proof fn lemma_first_named_update(children: Seq<Element>, k: int, x: Element, name: Seq<char>, i: int)
    requires
        0 <= k < children.len(),
        0 <= i,
        element_name(x) == element_name(children[k]),
    ensures
        first_named(children.update(k, x), name, i) == first_named(children, name, i),
    decreases children.len() - i,
{
    if i < children.len() {
        lemma_first_named_update(children, k, x, name, i + 1);
    }
}

/// Replacing a child by one of the same name changes no other child of a
/// name, and makes the new one the child of its name.
proof fn lemma_child_update(before: Element, after: Element, k: int, x: Element)
    requires
        0 <= k < element_children(before).len(),
        element_name(x) == element_name(element_children(before)[k]),
        first_named(element_children(before), element_name(x), 0) == Some(k),
        element_children(after) == element_children(before).update(k, x),
    ensures
        child_of(after, element_name(x)) == Some(x),
        forall|m: Seq<char>| m != element_name(x) ==> #[trigger] child_of(after, m) == child_of(before, m),
{
    lemma_first_named_update(element_children(before), k, x, element_name(x), 0);
    assert forall|m: Seq<char>| m != element_name(x) implies #[trigger] child_of(after, m) == child_of(before, m) by {
        lemma_first_named_update(element_children(before), k, x, m, 0);
        lemma_first_named(element_children(before), m, 0);
    }
}

// ----- the outside calls -----

/// Relies on `xmltree::Element::parse`: the result depends on the text
/// alone. The reference template reads as a template the export can fill
/// (xml-rs drops the whitespace between its elements).
#[verifier::external_body]
fn parse_document(text: &str) -> (r: Result<Element, xmltree::ParseError>)
    ensures
        r is Ok <==> parses(text@),
        r matches Ok(e) ==> e == parsed_document(text@),
        r matches Ok(e) ==> (text@ == REFERENCE_TEMPLATE@ ==> template_shape(e)),
        text@ == REFERENCE_TEMPLATE@ ==> r is Ok,
{
    Element::parse(text.as_bytes())
}

/// Relies on `xmltree::Element::get_mut_child`: a reference to the first
/// child element with this name, which sits in the element's children.
#[verifier::external_body]
fn child_mut<'a>(e: &'a mut Element, name: &str) -> (r: Option<&'a mut Element>)
    ensures
        r is Some <==> first_named(element_children(*old(e)), name@, 0) is Some,
        r is None ==> *final(e) == *old(e),
        r matches Some(c) ==> first_named(element_children(*old(e)), name@, 0) matches Some(k) && *c
            == element_children(*old(e))[k] && element_children(*final(e)) == element_children(
            *old(e),
        ).update(k, *final(c)) && same_shell(*final(e), *old(e)),
{
    e.get_mut_child(name)
}

/// Relies on `xmltree::Element::take_child`: removes and returns the first
/// child element with this name.
#[verifier::external_body]
fn take_child(e: &mut Element, name: &str) -> (r: Option<Element>)
    ensures
        r is Some <==> first_named(element_children(*old(e)), name@, 0) is Some,
        r is None ==> *final(e) == *old(e),
        r matches Some(c) ==> first_named(element_children(*old(e)), name@, 0) matches Some(k) && c
            == element_children(*old(e))[k] && element_children(*final(e)) == element_children(
            *old(e),
        ).remove(k) && same_shell(*final(e), *old(e)),
{
    e.take_child(name)
}

/// Relies on the public `children` of `xmltree::Element`: the text becomes
/// the element's only child, which `get_text` then reads back.
#[verifier::external_body]
fn set_text(e: &mut Element, text: String)
    ensures
        element_text(*final(e)) == Some(text@),
        element_children(*final(e)) == Seq::<Element>::empty(),
        element_name(*final(e)) == element_name(*old(e)),
        forall|key: Seq<char>| #[trigger] element_attribute(*final(e), key) == element_attribute(*old(e), key),
{
    e.children = vec![XMLNode::Text(text)];
}

/// Relies on the public `attributes` map of `xmltree::Element`.
#[verifier::external_body]
fn set_attribute(e: &mut Element, key: &str, value: String)
    ensures
        element_attribute(*final(e), key@) == Some(value@),
        forall|k: Seq<char>| k != key@ ==> #[trigger] element_attribute(*final(e), k) == element_attribute(*old(e), k),
        element_name(*final(e)) == element_name(*old(e)),
        element_text(*final(e)) == element_text(*old(e)),
        element_children(*final(e)) == element_children(*old(e)),
{
    e.attributes.insert(key.to_string(), value);
}

/// Relies on the derived `Clone` of `xmltree::Element`: an equal copy.
#[verifier::external_body]
fn copy_element(e: &Element) -> (r: Element)
    ensures
        r == *e,
{
    e.clone()
}

/// Relies on the public `children` of `xmltree::Element`: appends a child
/// element after the others.
#[verifier::external_body]
fn append_child(e: &mut Element, child: Element)
    ensures
        element_children(*final(e)) == element_children(*old(e)).push(child),
        same_shell(*final(e), *old(e)),
{
    e.children.push(XMLNode::Element(child));
}

/// Relies on `xmltree::Element::write_with_config`: the indented document.
#[verifier::external_body]
fn write_document(e: &Element) -> (r: Result<Vec<u8>, xmltree::Error>) {
    let mut out: Vec<u8> = Vec::new();
    match e.write_with_config(&mut out, EmitterConfig::new().perform_indent(true)) {
        Ok(()) => Ok(out),
        Err(err) => Err(err),
    }
}

// ----- filling the template -----

/// Sets the text of the first child element named `name`.
fn set_child_text(e: &mut Element, name: &str, text: String) -> (r: Result<(), ExportError>)
    ensures
        r is Ok <==> child_of(*old(e), name@) is Some,
        r matches Err(err) ==> err == ExportError::MissingNode && *final(e) == *old(e),
        r is Ok ==> text_of(*final(e), name@) == Some(text@) && same_shell(*final(e), *old(e)),
        r is Ok ==> forall|m: Seq<char>| m != name@ ==> #[trigger] child_of(*final(e), m) == child_of(*old(e), m),
        r is Ok ==> child_of(*final(e), name@) is Some,
{
    let ghost before = *e;
    match child_mut(e, name) {
        Some(child) => {
            let ghost k = first_named(element_children(before), name@, 0)->0;
            proof {
                lemma_first_named(element_children(before), name@, 0);
            }
            set_text(child, text);
            proof {
                lemma_child_update(before, *e, k, *child);
            }
            Ok(())
        },
        None => Err(ExportError::MissingNode),
    }
}

proof fn lemma_layer_names()
    ensures
        "SampleName"@ != "SampleFile"@,
        "SampleName"@ != "VelStart"@,
        "SampleName"@ != "VelEnd"@,
        "SampleName"@ != "RootNote"@,
        "SampleFile"@ != "VelStart"@,
        "SampleFile"@ != "VelEnd"@,
        "SampleFile"@ != "RootNote"@,
        "VelStart"@ != "VelEnd"@,
        "VelStart"@ != "RootNote"@,
        "VelEnd"@ != "RootNote"@,
{
    reveal_strlit("SampleName");
    reveal_strlit("SampleFile");
    reveal_strlit("VelStart");
    reveal_strlit("VelEnd");
    reveal_strlit("RootNote");
    assert("SampleName"@[6] != "SampleFile"@[6]);
    assert("SampleName"@.len() != "VelStart"@.len());
    assert("SampleName"@.len() != "VelEnd"@.len());
    assert("SampleName"@.len() != "RootNote"@.len());
    assert("SampleFile"@.len() != "VelStart"@.len());
    assert("SampleFile"@.len() != "VelEnd"@.len());
    assert("SampleFile"@.len() != "RootNote"@.len());
    assert("VelStart"@.len() != "VelEnd"@.len());
    assert("VelStart"@[0] != "RootNote"@[0]);
    assert("VelEnd"@.len() != "RootNote"@.len());
}

proof fn lemma_other_names()
    ensures
        "ProgramName"@ != "KeygroupNumKeygroups"@,
        "ProgramName"@ != "Instruments"@,
        "KeygroupNumKeygroups"@ != "Instruments"@,
        "LowNote"@ != "HighNote"@,
        "LowNote"@ != "Layers"@,
        "HighNote"@ != "Layers"@,
{
    reveal_strlit("ProgramName");
    reveal_strlit("KeygroupNumKeygroups");
    reveal_strlit("Instruments");
    reveal_strlit("LowNote");
    reveal_strlit("HighNote");
    reveal_strlit("Layers");
    assert("ProgramName"@.len() != "KeygroupNumKeygroups"@.len());
    assert("ProgramName"@[0] != "Instruments"@[0]);
    assert("KeygroupNumKeygroups"@.len() != "Instruments"@.len());
    assert("LowNote"@.len() != "HighNote"@.len());
    assert("LowNote"@.len() != "Layers"@.len());
    assert("HighNote"@.len() != "Layers"@.len());
}

/// A layer element whose fields are set from `fields`.
pub open spec fn layer_filled(e: Element, fields: LayerFields) -> bool {
    &&& text_of(e, "SampleName"@) == Some(fields.sample_name@)
    &&& text_of(e, "SampleFile"@) == Some(fields.sample_file@)
    &&& text_of(e, "VelStart"@) == Some(fields.velocity_start@)
    &&& text_of(e, "VelEnd"@) == Some(fields.velocity_end@)
    &&& text_of(e, "RootNote"@) == Some(fields.root_note@)
}

fn fill_layer(layer: &mut Element, fields: &LayerFields) -> (r: Result<(), ExportError>)
    ensures
        r matches Err(err) ==> err == ExportError::MissingNode,
        layer_shape(*old(layer)) ==> r is Ok,
        r is Ok ==> layer_filled(*final(layer), *fields) && element_name(*final(layer)) == element_name(*old(layer)),
{
    proof {
        lemma_layer_names();
    }
    set_child_text(layer, "SampleName", fields.sample_name.clone())?;
    set_child_text(layer, "SampleFile", fields.sample_file.clone())?;
    set_child_text(layer, "VelStart", fields.velocity_start.clone())?;
    set_child_text(layer, "VelEnd", fields.velocity_end.clone())?;
    set_child_text(layer, "RootNote", fields.root_note.clone())
}

/// The slot element holds the slot's fields, or is the placeholder.
pub open spec fn slot_filled(e: Element, fields: Option<LayerFields>, placeholder: Element) -> bool {
    match fields {
        Some(f) => layer_filled(e, f) && element_name(e) == "Layer"@,
        None => e == placeholder,
    }
}

/// A keygroup element filled from `fields`, from the placeholder `reference`.
pub open spec fn instrument_filled(e: Element, fields: InstrumentFields, reference: Element) -> bool {
    &&& element_name(e) == element_name(reference)
    &&& element_attribute(e, "number"@) == Some(fields.number@)
    &&& text_of(e, "LowNote"@) == Some(fields.low_note@)
    &&& text_of(e, "HighNote"@) == Some(fields.high_note@)
    &&& child_of(e, "Layers"@) is Some
    &&& layers_of(e).len() == 4
    &&& forall|j: int| 0 <= j < 4 ==> slot_filled(#[trigger] layers_of(e)[j], fields.layers@[j], layers_of(reference)[j])
}

/// A copy of the reference keygroup filled with one keygroup's fields.
fn fill_instrument(reference: &Element, fields: &InstrumentFields) -> (r: Result<Element, ExportError>)
    requires
        fields.layers@.len() == 4,
    ensures
        r matches Err(err) ==> err == ExportError::MissingNode || err == ExportError::LayerCount,
        instrument_shape(*reference) ==> (r matches Ok(e) && instrument_filled(e, *fields, *reference)),
{
    proof {
        lemma_other_names();
        reveal_strlit("Layer");
    }
    let ghost shaped = instrument_shape(*reference);
    let mut instrument = copy_element(reference);
    set_child_text(&mut instrument, "LowNote", fields.low_note.clone())?;
    let ghost mid1 = instrument;
    assert(child_of(mid1, "Layers"@) == child_of(*reference, "Layers"@));
    assert(child_of(mid1, "HighNote"@) == child_of(*reference, "HighNote"@));
    set_child_text(&mut instrument, "HighNote", fields.high_note.clone())?;
    let ghost mid2 = instrument;
    assert(child_of(mid2, "Layers"@) == child_of(mid1, "Layers"@));
    assert(child_of(mid2, "LowNote"@) == child_of(mid1, "LowNote"@));
    set_attribute(&mut instrument, "number", fields.number.clone());
    let ghost before = instrument;
    assert(child_of(before, "Layers"@) == child_of(*reference, "Layers"@));
    assert(text_of(before, "LowNote"@) == Some(fields.low_note@));
    assert(text_of(before, "HighNote"@) == Some(fields.high_note@));
    assert(element_name(before) == element_name(*reference));
    let ghost placeholders = layers_of(*reference);
    let layers = match child_mut(&mut instrument, "Layers") {
        Some(layers) => layers,
        None => return Err(ExportError::MissingNode),
    };
    let ghost k = first_named(element_children(before), "Layers"@, 0)->0;
    proof {
        lemma_first_named(element_children(before), "Layers"@, 0);
    }
    assert(shaped ==> element_children(*layers) == placeholders);
    let mut slots: Vec<Element> = Vec::new();
    let mut j: usize = 0;
    while j < 4
        invariant
            j <= 4,
            slots@.len() == j,
            element_name(*layers) == "Layers"@,
            shaped == instrument_shape(*reference),
            shaped ==> placeholders.len() == 4,
            shaped ==> forall|i: int| 0 <= i < 4 ==> element_name(#[trigger] placeholders[i]) == "Layer"@,
            shaped ==> element_children(*layers) == placeholders.subrange(j as int, 4),
            shaped ==> slots@ == placeholders.subrange(0, j as int),
        decreases 4 - j,
    {
        let ghost current = element_children(*layers);
        proof {
            if shaped {
                assert(current[0] == placeholders[j as int]);
                assert(first_named(current, "Layer"@, 0) == Some(0int));
            }
        }
        match take_child(layers, "Layer") {
            Some(slot) => slots.push(slot),
            None => return Err(ExportError::LayerCount),
        }
        proof {
            if shaped {
                lemma_first_named(current, "Layer"@, 0);
                assert(first_named(current, "Layer"@, 0) == Some(0int));
                assert(current.remove(0) =~= placeholders.subrange(j + 1, 4));
                assert(slots@ =~= placeholders.subrange(0, j + 1));
            }
        }
        j = j + 1;
    }
    if take_child(layers, "Layer").is_some() {
        return Err(ExportError::LayerCount);
    }
    proof {
        if shaped {
            assert(slots@ =~= placeholders);
        }
    }
    let mut j: usize = 0;
    while j < 4
        invariant
            j <= 4,
            slots@.len() == 4,
            fields.layers@.len() == 4,
            element_name(*layers) == "Layers"@,
            shaped == instrument_shape(*reference),
            shaped ==> placeholders.len() == 4,
            shaped ==> forall|i: int| 0 <= i < 4 ==> element_name(#[trigger] placeholders[i]) == "Layer"@ && layer_shape(placeholders[i]),
            shaped ==> forall|i: int| j <= i < 4 ==> #[trigger] slots@[i] == placeholders[i],
            shaped ==> forall|i: int| 0 <= i < j ==> slot_filled(#[trigger] slots@[i], fields.layers@[i], placeholders[i]),
        decreases 4 - j,
    {
        match &fields.layers[j] {
            Some(layer_fields) => {
                fill_layer(&mut slots[j], layer_fields)?;
            },
            None => {},
        }
        j = j + 1;
    }
    let ghost filled = slots@;
    while slots.len() > 0
        invariant
            slots@.len() <= 4,
            filled.len() == 4,
            element_name(*layers) == "Layers"@,
            shaped == instrument_shape(*reference),
            shaped ==> element_children(*layers) == filled.subrange(0, 4 - slots@.len()),
            slots@ == filled.subrange(4 - slots@.len(), 4),
        decreases slots@.len(),
    {
        let slot = slots.remove(0);
        append_child(layers, slot);
        proof {
            if shaped {
                assert(element_children(*layers) =~= filled.subrange(0, 4 - slots@.len()));
            }
            assert(slots@ =~= filled.subrange(4 - slots@.len(), 4));
        }
    }
    proof {
        if shaped {
            assert(element_children(*layers) =~= filled);
        }
    }
    let ghost layers_final = *layers;
    proof {
        lemma_child_update(before, instrument, k, layers_final);
        if shaped {
            assert(layers_of(instrument) == filled);
        }
    }
    Ok(instrument)
}

/// A document filled with the program's fields from `template`.
pub open spec fn document_filled(doc: Element, fields: ProgramFields, template: Element) -> bool {
    &&& child_of(doc, "Program"@) is Some
    &&& text_of(program_of(doc), "ProgramName"@) == Some(fields.name@)
    &&& text_of(program_of(doc), "KeygroupNumKeygroups"@) == Some(fields.keygroup_count@)
    &&& child_of(program_of(doc), "Instruments"@) is Some
    &&& instruments_of(doc).len() == fields.instruments@.len()
    &&& forall|i: int|
        0 <= i < fields.instruments@.len() ==> instrument_filled(
            #[trigger] instruments_of(doc)[i],
            fields.instruments@[i],
            template_instrument(template),
        )
}

/// Writes the fields into a copy of `template`: the program name and the
/// keygroup count, and one copy of the template's keygroup per keygroup,
/// which replaces the template's own.
fn fill_template(template: &str, fields: &ProgramFields) -> (r: Result<Element, ExportError>)
    requires
        forall|i: int| 0 <= i < fields.instruments@.len() ==> (#[trigger] fields.instruments@[i]).layers@.len() == 4,
    ensures
        r matches Err(err) ==> template_error(err),
        template@ == REFERENCE_TEMPLATE@ ==> usable_template(template@),
        usable_template(template@) ==> (r matches Ok(doc) && document_filled(doc, *fields, parsed_document(template@))),
{
    proof {
        lemma_other_names();
        reveal_strlit("Program");
        reveal_strlit("Instrument");
    }
    let parsed = parse_document(template);
    let ghost usable = usable_template(template@);
    let ghost t = parsed_document(template@);
    let mut root = match parsed {
        Ok(root) => root,
        Err(_) => return Err(ExportError::TemplateParse),
    };
    let ghost root0 = root;
    let program = match child_mut(&mut root, "Program") {
        Some(program) => program,
        None => return Err(ExportError::MissingNode),
    };
    let ghost kp = first_named(element_children(root0), "Program"@, 0)->0;
    proof {
        lemma_first_named(element_children(root0), "Program"@, 0);
    }
    let ghost p0 = *program;
    set_child_text(program, "ProgramName", fields.name.clone())?;
    let ghost p1 = *program;
    assert(child_of(p1, "Instruments"@) == child_of(p0, "Instruments"@));
    assert(child_of(p1, "KeygroupNumKeygroups"@) == child_of(p0, "KeygroupNumKeygroups"@));
    set_child_text(program, "KeygroupNumKeygroups", fields.keygroup_count.clone())?;
    let ghost p2 = *program;
    assert(child_of(p2, "Instruments"@) == child_of(p0, "Instruments"@));
    assert(child_of(p2, "ProgramName"@) == child_of(p1, "ProgramName"@));
    assert(usable ==> root0 == t && p0 == program_of(t));
    let instruments = match child_mut(program, "Instruments") {
        Some(instruments) => instruments,
        None => return Err(ExportError::MissingNode),
    };
    let ghost ki = first_named(element_children(p2), "Instruments"@, 0)->0;
    proof {
        lemma_first_named(element_children(p2), "Instruments"@, 0);
    }
    let ghost ins0 = *instruments;
    assert(usable ==> ins0 == child_of(program_of(t), "Instruments"@)->0);
    let reference = match take_child(instruments, "Instrument") {
        Some(reference) => reference,
        None => return Err(ExportError::MissingNode),
    };
    proof {
        if usable {
            lemma_first_named(element_children(ins0), "Instrument"@, 0);
            assert(first_named(element_children(ins0), "Instrument"@, 0) == Some(0int));
            assert(element_children(ins0).remove(0) =~= Seq::<Element>::empty());
        }
    }
    let n = fields.instruments.len();
    let mut i: usize = 0;
    while i < n
        invariant
            n == fields.instruments@.len(),
            i <= n,
            forall|k: int| 0 <= k < n ==> (#[trigger] fields.instruments@[k]).layers@.len() == 4,
            element_name(*instruments) == "Instruments"@,
            usable == usable_template(template@),
            template@ == REFERENCE_TEMPLATE@ ==> usable,
            usable ==> reference == template_instrument(t) && instrument_shape(reference),
            usable ==> element_children(*instruments).len() == i,
            usable ==> forall|k: int| 0 <= k < i ==> instrument_filled(#[trigger] element_children(*instruments)[k], fields.instruments@[k], reference),
        decreases n - i,
    {
        let instrument = fill_instrument(&reference, &fields.instruments[i])?;
        let ghost before = element_children(*instruments);
        append_child(instruments, instrument);
        proof {
            if usable {
                assert forall|k: int| 0 <= k < i + 1 implies instrument_filled(#[trigger] element_children(*instruments)[k], fields.instruments@[k], reference) by {
                    if k < i {
                        assert(element_children(*instruments)[k] == before[k]);
                    }
                }
            }
        }
        i = i + 1;
    }
    let ghost ins_final = *instruments;
    proof {
        lemma_child_update(p2, *program, ki, ins_final);
    }
    let ghost p_final = *program;
    proof {
        lemma_child_update(root0, root, kp, p_final);
    }
    Ok(root)
}

/// Exports a program into a copy of `template`. A program that cannot be
/// exported gives the first reason why (see `program_fields`); otherwise
/// any error comes from the template, and a template the export can fill
/// gives the document of the program.
pub fn make_program_with_template(template: &str, name: &str, keygroups: &Vec<Keygroup>) -> (r: Result<Element, ExportError>)
    ensures
        first_error(keygroups@, 0) matches Some(e) ==> r == Err::<Element, ExportError>(e),
        first_error(keygroups@, 0) is None ==> (r matches Err(e) ==> template_error(e)),
        first_error(keygroups@, 0) is None && (usable_template(template@) || template@
            == REFERENCE_TEMPLATE@) ==> (usable_template(template@) && (r matches Ok(doc) && document_written(
            doc,
            name@,
            keygroups@,
            parsed_document(template@),
        ))),
{
    let fields = program_fields(name, keygroups)?;
    assert forall|i: int| 0 <= i < fields.instruments@.len() implies (#[trigger] fields.instruments@[i]).layers@.len() == 4 by {
        assert(instrument_fields_match(fields.instruments@[i], keygroups@[i], (i + 1) as nat));
    }
    let r = fill_template(template, &fields);
    proof {
        if usable_template(template@) {
            lemma_filled_is_written(r->Ok_0, fields, name@, keygroups@, parsed_document(template@));
        }
    }
    r
}

proof fn lemma_filled_is_written(doc: Element, fields: ProgramFields, name: Seq<char>, kgs: Seq<Keygroup>, template: Element)
    requires
        program_fields_match(fields, name, kgs),
        document_filled(doc, fields, template),
        template_shape(template),
    ensures
        document_written(doc, name, kgs, template),
{
    reveal_strlit("Layer");
    let reference = template_instrument(template);
    assert forall|i: int| 0 <= i < kgs.len() implies instrument_written(
        #[trigger] instruments_of(doc)[i],
        kgs[i],
        (i + 1) as nat,
        reference,
    ) by {
        let e = instruments_of(doc)[i];
        let f = fields.instruments@[i];
        assert(instrument_fields_match(f, kgs[i], (i + 1) as nat));
        assert(instrument_filled(e, f, reference));
        assert forall|j: int| 0 <= j < 4 implies slot_written(#[trigger] layers_of(e)[j], kgs[i].layers@[j], layers_of(reference)[j]) by {
            assert(slot_fields_match(f.layers@[j], kgs[i].layers@[j]));
            assert(slot_filled(layers_of(e)[j], f.layers@[j], layers_of(reference)[j]));
        }
    }
}

/// Exports a program into a copy of the reference template: it succeeds
/// exactly when the program can be exported, and the document holds it.
pub fn make_program(name: &str, keygroups: &Vec<Keygroup>) -> (r: Result<Element, ExportError>)
    ensures
        first_error(keygroups@, 0) matches Some(e) ==> r == Err::<Element, ExportError>(e),
        r is Ok <==> first_error(keygroups@, 0) is None,
        r matches Ok(doc) ==> document_written(doc, name@, keygroups@, parsed_document(REFERENCE_TEMPLATE@)),
{
    make_program_with_template(REFERENCE_TEMPLATE, name, keygroups)
}

/// The exported document of a program, as indented XML.
pub fn export_document(name: &str, keygroups: &Vec<Keygroup>) -> (r: Result<Vec<u8>, ExportError>)
    ensures
        first_error(keygroups@, 0) matches Some(e) ==> r == Err::<Vec<u8>, ExportError>(e),
        first_error(keygroups@, 0) is None ==> (r is Ok || r == Err::<Vec<u8>, ExportError>(ExportError::Write)),
{
    let document = make_program(name, keygroups)?;
    match write_document(&document) {
        Ok(bytes) => Ok(bytes),
        Err(_) => Err(ExportError::Write),
    }
}

/// A program of one keygroup, with a range and one layer with a root and a
/// sample name, can be exported, and its document carries the program name
/// and the layer's file name unchanged.
pub proof fn lemma_export_keeps_names(doc: Element, name: Seq<char>, kg: Keygroup, layer: Layer, template: Element)
    requires
        kg.range is Some,
        kg.layers@ == seq![Some(layer), None, None, None],
        layer.root is Some,
        file_stem(layer.file@) is Some,
        document_written(doc, name, seq![kg], template),
    ensures
        first_error(seq![kg], 0) is None,
        text_of(program_of(doc), "ProgramName"@) == Some(name),
        instruments_of(doc).len() == 1,
        text_of(layers_of(instruments_of(doc)[0])[0], "SampleFile"@) == Some(layer.file@),
{
    assert(keygroup_error(kg) is None);
    assert(first_error(seq![kg], 1) is None);
    assert(instrument_written(instruments_of(doc)[0], kg, 1, template_instrument(template)));
    assert(slot_written(layers_of(instruments_of(doc)[0])[0], kg.layers@[0], layers_of(template_instrument(template))[0]));
}

} // verus!
