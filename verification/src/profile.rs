//! Field metadata, subsystem catalogues and capture profiles.
use vstd::prelude::*;

use crate::catalogue::{
    gb_apu, gb_apu_layers, gb_cpu, gb_cpu_layers, gb_interrupt, gb_interrupt_layers, gb_ppu,
    gb_ppu_layers, gb_serial, gb_serial_layers, gb_timer, gb_timer_layers,
};
use crate::error::Error;
use crate::header::{contains_name, names_field, Trigger};
use crate::query::without_hex_prefix;
use crate::text::{
    append_chars, append_str, chars_eq, chars_of, parse_unsigned, parse_unsigned_exec, str_eq,
    strip_prefix_chars, string_of,
};

verus! {

// ---------------------------------------------------------------------------
// Field metadata
// ---------------------------------------------------------------------------

/// Native type of a trace field.
#[derive(Debug, Clone, Copy, PartialEq, Eq, Structural)]
pub enum FieldType {
    UInt64,
    UInt16,
    UInt8,
    Bool,
    Str,
}

/// Complete metadata for a single trace field.
#[derive(Debug, Clone, Copy)]
pub struct FieldDef {
    pub name: &'static str,
    pub field_type: FieldType,
    pub nullable: bool,
    pub dictionary: bool,
}

/// A capture layer within a subsystem.
#[derive(Debug, Clone, Copy, PartialEq, Eq, Hash, Structural)]
pub enum Layer {
    Registers,
    Internal,
    Writes,
    Output,
    Timing,
}

/// The layer a name denotes.
pub open spec fn layer_of_name(s: Seq<char>) -> Option<Layer> {
    if s == "registers"@ {
        Some(Layer::Registers)
    } else if s == "internal"@ {
        Some(Layer::Internal)
    } else if s == "writes"@ {
        Some(Layer::Writes)
    } else if s == "output"@ {
        Some(Layer::Output)
    } else if s == "timing"@ {
        Some(Layer::Timing)
    } else {
        None
    }
}

impl Layer {
    /// The layer a name denotes.
    pub fn from_str(s: &str) -> (r: Option<Layer>)
        ensures
            r == layer_of_name(s@),
    {
        if str_eq(s, "registers") {
            Some(Layer::Registers)
        } else if str_eq(s, "internal") {
            Some(Layer::Internal)
        } else if str_eq(s, "writes") {
            Some(Layer::Writes)
        } else if str_eq(s, "output") {
            Some(Layer::Output)
        } else if str_eq(s, "timing") {
            Some(Layer::Timing)
        } else {
            None
        }
    }
}

/// A hardware subsystem definition with its available layers.
pub struct SubsystemDef {
    pub name: &'static str,
    pub layers: Vec<(Layer, Vec<FieldDef>)>,
}

/// All field definitions of the given layers, in order.
pub open spec fn flatten_layers(ls: Seq<(Layer, Seq<FieldDef>)>) -> Seq<FieldDef>
    decreases ls.len(),
{
    if ls.len() == 0 {
        Seq::empty()
    } else {
        flatten_layers(ls.drop_last()) + ls.last().1
    }
}

/// The field definitions of the layers in `sel`, in layer order.
pub open spec fn flatten_selected(ls: Seq<(Layer, Seq<FieldDef>)>, sel: Seq<Layer>) -> Seq<FieldDef>
    decreases ls.len(),
{
    if ls.len() == 0 {
        Seq::empty()
    } else if sel.contains(ls.last().0) {
        flatten_selected(ls.drop_last(), sel) + ls.last().1
    } else {
        flatten_selected(ls.drop_last(), sel)
    }
}

/// The layers a subsystem offers, in order.
pub open spec fn layers_of(ls: Seq<(Layer, Seq<FieldDef>)>) -> Seq<Layer> {
    Seq::new(ls.len(), |i: int| ls[i].0)
}

impl SubsystemDef {
    /// The layers of this subsystem with their field lists as sequences.
    pub open spec fn layers_view(&self) -> Seq<(Layer, Seq<FieldDef>)> {
        Seq::new(self.layers@.len(), |i: int| (self.layers@[i].0, self.layers@[i].1@))
    }

    /// Get all fields for the given layers.
    pub fn fields_for_layers(&self, layers: &Vec<Layer>) -> (r: Vec<FieldDef>)
        ensures
            r@ == flatten_selected(self.layers_view(), layers@),
    {
        let mut r: Vec<FieldDef> = Vec::new();
        let mut i: usize = 0;
        while i < self.layers.len()
            invariant
                0 <= i <= self.layers@.len(),
                r@ == flatten_selected(self.layers_view().take(i as int), layers@),
            decreases self.layers@.len() - i,
        {
            let ghost lv = self.layers_view();
            assert(lv.take(i + 1).drop_last() =~= lv.take(i as int));
            let l = self.layers[i].0;
            if contains_layer(layers, l) {
                let fs = &self.layers[i].1;
                let mut j: usize = 0;
                let ghost r0 = r@;
                while j < fs.len()
                    invariant
                        0 <= j <= fs@.len(),
                        r@ == r0 + fs@.take(j as int),
                    decreases fs@.len() - j,
                {
                    r.push(fs[j]);
                    j += 1;
                    assert(r@ =~= r0 + fs@.take(j as int));
                }
                assert(fs@.take(j as int) =~= fs@);
            }
            i += 1;
        }
        assert(self.layers_view().take(i as int) =~= self.layers_view());
        r
    }

    /// Get all fields across all layers.
    pub fn all_fields(&self) -> (r: Vec<FieldDef>)
        ensures
            r@ == flatten_layers(self.layers_view()),
    {
        let mut r: Vec<FieldDef> = Vec::new();
        let mut i: usize = 0;
        while i < self.layers.len()
            invariant
                0 <= i <= self.layers@.len(),
                r@ == flatten_layers(self.layers_view().take(i as int)),
            decreases self.layers@.len() - i,
        {
            let ghost lv = self.layers_view();
            assert(lv.take(i + 1).drop_last() =~= lv.take(i as int));
            let fs = &self.layers[i].1;
            let mut j: usize = 0;
            let ghost r0 = r@;
            while j < fs.len()
                invariant
                    0 <= j <= fs@.len(),
                    r@ == r0 + fs@.take(j as int),
                decreases fs@.len() - j,
            {
                r.push(fs[j]);
                j += 1;
                assert(r@ =~= r0 + fs@.take(j as int));
            }
            assert(fs@.take(j as int) =~= fs@);
            i += 1;
        }
        assert(self.layers_view().take(i as int) =~= self.layers_view());
        r
    }

    /// Get the available layers of this subsystem.
    pub fn available_layers(&self) -> (r: Vec<Layer>)
        ensures
            r@ == layers_of(self.layers_view()),
    {
        let mut r: Vec<Layer> = Vec::new();
        let mut i: usize = 0;
        while i < self.layers.len()
            invariant
                0 <= i <= self.layers@.len(),
                r@ == layers_of(self.layers_view()).take(i as int),
            decreases self.layers@.len() - i,
        {
            r.push(self.layers[i].0);
            i += 1;
            assert(r@ =~= layers_of(self.layers_view()).take(i as int));
        }
        assert(layers_of(self.layers_view()).take(i as int) =~= layers_of(self.layers_view()));
        r
    }
}

/// Whether `l` is one of `ls`.
pub fn contains_layer(ls: &Vec<Layer>, l: Layer) -> (r: bool)
    ensures
        r == ls@.contains(l),
{
    let mut i: usize = 0;
    while i < ls.len()
        invariant
            0 <= i <= ls@.len(),
            forall|k: int| 0 <= k < i ==> ls@[k] != l,
        decreases ls@.len() - i,
    {
        if ls[i] == l {
            return true;
        }
        i += 1;
    }
    false
}

// ---------------------------------------------------------------------------
// The Game Boy catalogue and lookups
// ---------------------------------------------------------------------------

/// The Game Boy subsystems in field order: CPU, PPU, APU, timer,
/// interrupt controller, serial port.
pub open spec fn gb_subsystems() -> Seq<Seq<(Layer, Seq<FieldDef>)>> {
    seq![
        gb_cpu_layers(),
        gb_ppu_layers(),
        gb_apu_layers(),
        gb_timer_layers(),
        gb_interrupt_layers(),
        gb_serial_layers(),
    ]
}

/// All field definitions of a list of subsystems, in order.
pub open spec fn flatten_subsystems(ss: Seq<Seq<(Layer, Seq<FieldDef>)>>) -> Seq<FieldDef>
    decreases ss.len(),
{
    if ss.len() == 0 {
        Seq::empty()
    } else {
        flatten_subsystems(ss.drop_last()) + flatten_layers(ss.last())
    }
}

/// Every Game Boy field definition, in field order.
pub open spec fn gb_catalogue() -> Seq<FieldDef> {
    flatten_subsystems(gb_subsystems())
}

/// The first definition in `defs` named `name`.
pub open spec fn first_named(defs: Seq<FieldDef>, name: Seq<char>) -> Option<FieldDef>
    decreases defs.len(),
{
    if defs.len() == 0 {
        None
    } else if first_named(defs.drop_last(), name) is Some {
        first_named(defs.drop_last(), name)
    } else if defs.last().name@ == name {
        Some(defs.last())
    } else {
        None
    }
}

/// All Game Boy subsystems in field order.
pub fn all_subsystems() -> (r: Vec<SubsystemDef>)
    ensures
        r@.len() == 6,
        forall|i: int| 0 <= i < 6 ==> (#[trigger] r@[i]).layers_view() == gb_subsystems()[i],
        r@[0].name == "cpu",
        r@[1].name == "ppu",
        r@[2].name == "apu",
        r@[3].name == "timer",
        r@[4].name == "interrupt",
        r@[5].name == "serial",
{
    let mut r: Vec<SubsystemDef> = Vec::new();
    r.push(gb_cpu());
    r.push(gb_ppu());
    r.push(gb_apu());
    r.push(gb_timer());
    r.push(gb_interrupt());
    r.push(gb_serial());
    r
}

/// Every Game Boy field definition, in field order.
pub fn catalogue() -> (r: Vec<FieldDef>)
    ensures
        r@ == gb_catalogue(),
{
    let subs = all_subsystems();
    let mut r: Vec<FieldDef> = Vec::new();
    let mut i: usize = 0;
    while i < subs.len()
        invariant
            0 <= i <= 6,
            subs@.len() == 6,
            forall|k: int| 0 <= k < 6 ==> (#[trigger] subs@[k]).layers_view() == gb_subsystems()[k],
            r@ == flatten_subsystems(gb_subsystems().take(i as int)),
        decreases 6 - i,
    {
        assert(gb_subsystems().take(i + 1).drop_last() =~= gb_subsystems().take(i as int));
        let fs = subs[i].all_fields();
        let ghost r0 = r@;
        let mut j: usize = 0;
        while j < fs.len()
            invariant
                0 <= j <= fs@.len(),
                r@ == r0 + fs@.take(j as int),
            decreases fs@.len() - j,
        {
            r.push(fs[j]);
            j += 1;
            assert(r@ =~= r0 + fs@.take(j as int));
        }
        assert(fs@.take(j as int) =~= fs@);
        i += 1;
    }
    assert(gb_subsystems().take(6) =~= gb_subsystems());
    r
}

/// Look up a field definition by name across all subsystems.
pub fn lookup_field(name: &str) -> (r: Option<FieldDef>)
    ensures
        r == first_named(gb_catalogue(), name@),
{
    let defs = catalogue();
    let mut i: usize = 0;
    while i < defs.len()
        invariant
            0 <= i <= defs@.len(),
            defs@ == gb_catalogue(),
            first_named(defs@.take(i as int), name@) is None,
        decreases defs@.len() - i,
    {
        assert(defs@.take(i + 1).drop_last() =~= defs@.take(i as int));
        if str_eq(defs[i].name, name) {
            proof {
                lemma_first_named_prefix(defs@, i + 1, name@);
            }
            return Some(defs[i]);
        }
        i += 1;
    }
    assert(defs@.take(i as int) =~= defs@);
    None
}

proof fn lemma_first_named_prefix(defs: Seq<FieldDef>, k: int, name: Seq<char>)
    requires
        0 <= k <= defs.len(),
        first_named(defs.take(k), name) is Some,
    ensures
        first_named(defs, name) == first_named(defs.take(k), name),
    decreases defs.len() - k,
{
    if k < defs.len() {
        assert(defs.take(k + 1).drop_last() =~= defs.take(k));
        lemma_first_named_prefix(defs, k + 1, name);
    } else {
        assert(defs.take(k) =~= defs);
    }
}

/// The native type of a field name: the cycle count `cy` is a `u64`,
/// catalogue fields have their own type, and unknown fields (e.g. memory
/// reads) are `UInt8`.
pub open spec fn type_of_field(name: Seq<char>) -> FieldType {
    if name == "cy"@ {
        FieldType::UInt64
    } else {
        match first_named(gb_catalogue(), name) {
            Some(d) => d.field_type,
            None => FieldType::UInt8,
        }
    }
}

/// Return the native type for a field name: `UInt64` for the cycle count,
/// falling back to UInt8 for unknown fields (e.g. memory reads).
pub fn field_type(name: &str) -> (r: FieldType)
    ensures
        r == type_of_field(name@),
{
    if str_eq(name, "cy") {
        proof {
            reveal_strlit("cy");
        }
        return FieldType::UInt64;
    }
    match lookup_field(name) {
        Some(d) => d.field_type,
        None => FieldType::UInt8,
    }
}

/// Whether a field should be nullable.
pub fn field_nullable(name: &str) -> (r: bool)
    ensures
        r == (first_named(gb_catalogue(), name@) matches Some(d) && d.nullable),
{
    match lookup_field(name) {
        Some(d) => d.nullable,
        None => false,
    }
}

/// Whether a field should use dictionary encoding.
pub fn field_dictionary(name: &str) -> (r: bool)
    ensures
        r == (first_named(gb_catalogue(), name@) matches Some(d) && d.dictionary),
{
    match lookup_field(name) {
        Some(d) => d.dictionary,
        None => false,
    }
}

/// Check if a name is a known built-in field.
pub fn is_known_field(name: &str) -> (r: bool)
    ensures
        r == first_named(gb_catalogue(), name@) is Some,
{
    lookup_field(name).is_some()
}

// ---------------------------------------------------------------------------
// Layer selection
// ---------------------------------------------------------------------------

/// Subsystem layer selection in a profile: `true` or `"all"` for all
/// layers, a single layer name, or a list of layer names.
#[derive(Debug, Clone)]
pub enum LayerSelection {
    Bool(bool),
    Single(String),
    Multiple(Vec<String>),
}

/// The mathematical value of a [`LayerSelection`].
pub enum LayerSelectionView {
    Bool(bool),
    Single(Seq<char>),
    Multiple(Seq<Seq<char>>),
}

impl View for LayerSelection {
    type V = LayerSelectionView;

    open spec fn view(&self) -> LayerSelectionView {
        match self {
            LayerSelection::Bool(b) => LayerSelectionView::Bool(*b),
            LayerSelection::Single(s) => LayerSelectionView::Single(s@),
            LayerSelection::Multiple(v) => LayerSelectionView::Multiple(texts(v@)),
        }
    }
}

/// The layer a selected name denotes, or why it is refused.
pub open spec fn checked_layer(s: Seq<char>, sub: Seq<char>, avail: Seq<Layer>) -> Result<Layer, Seq<char>> {
    match layer_of_name(s) {
        None => Err("unknown layer '"@ + s + "' for subsystem '"@ + sub + "'"@),
        Some(l) => if !avail.contains(l) {
            Err("subsystem '"@ + sub + "' does not have layer '"@ + s + "'"@)
        } else {
            Ok(l)
        },
    }
}

/// The state of resolving a list of layer names.
pub enum Resolving {
    Going(Seq<Layer>),
    Everything,
    Failed(Seq<char>),
}

/// Resolving the names of a list in order: `"all"` selects every layer;
/// names already chosen are not added again.
pub open spec fn resolve_names(names: Seq<Seq<char>>, sub: Seq<char>, avail: Seq<Layer>) -> Resolving
    decreases names.len(),
{
    if names.len() == 0 {
        Resolving::Going(Seq::empty())
    } else {
        match resolve_names(names.drop_last(), sub, avail) {
            Resolving::Going(acc) => {
                let s = names.last();
                if s == "all"@ {
                    Resolving::Everything
                } else {
                    match checked_layer(s, sub, avail) {
                        Err(m) => Resolving::Failed(m),
                        Ok(l) => Resolving::Going(
                            if acc.contains(l) {
                                acc
                            } else {
                                acc.push(l)
                            },
                        ),
                    }
                }
            },
            other => other,
        }
    }
}

/// The layers a selection chooses from a subsystem, or why it is refused.
pub open spec fn resolution_of(sel: LayerSelectionView, sub: Seq<char>, avail: Seq<Layer>) -> Result<Seq<Layer>, Seq<char>> {
    match sel {
        LayerSelectionView::Bool(b) => if b {
            Ok(avail)
        } else {
            Ok(Seq::empty())
        },
        LayerSelectionView::Single(s) => if s == "all"@ {
            Ok(avail)
        } else {
            match checked_layer(s, sub, avail) {
                Err(m) => Err(m),
                Ok(l) => Ok(seq![l]),
            }
        },
        LayerSelectionView::Multiple(names) => match resolve_names(names, sub, avail) {
            Resolving::Going(acc) => Ok(acc),
            Resolving::Everything => Ok(avail),
            Resolving::Failed(m) => Err(m),
        },
    }
}

fn checked_layer_exec(s: &str, subsystem: &SubsystemDef, avail: &Vec<Layer>) -> (r: Result<Layer, String>)
    requires
        avail@ == layers_of(subsystem.layers_view()),
    ensures
        match r {
            Ok(l) => checked_layer(s@, subsystem.name@, avail@) == Ok::<Layer, Seq<char>>(l),
            Err(m) => checked_layer(s@, subsystem.name@, avail@) == Err::<Layer, Seq<char>>(m@),
        },
{
    match Layer::from_str(s) {
        None => {
            let mut m = chars_of("unknown layer '");
            append_str(&mut m, s);
            append_str(&mut m, "' for subsystem '");
            append_str(&mut m, subsystem.name);
            append_str(&mut m, "'");
            assert(m@ =~= "unknown layer '"@ + s@ + "' for subsystem '"@ + subsystem.name@ + "'"@);
            Err(string_of(&m))
        },
        Some(l) => {
            if !contains_layer(avail, l) {
                let mut m = chars_of("subsystem '");
                append_str(&mut m, subsystem.name);
                append_str(&mut m, "' does not have layer '");
                append_str(&mut m, s);
                append_str(&mut m, "'");
                assert(m@ =~= "subsystem '"@ + subsystem.name@ + "' does not have layer '"@ + s@
                    + "'"@);
                Err(string_of(&m))
            } else {
                Ok(l)
            }
        },
    }
}

/// Resolve a layer selection against a subsystem.
pub fn resolve_layers(selection: &LayerSelection, subsystem: &SubsystemDef) -> (r: Result<Vec<Layer>, String>)
    ensures
        match r {
            Ok(ls) => resolution_of(selection@, subsystem.name@, layers_of(subsystem.layers_view()))
                == Ok::<Seq<Layer>, Seq<char>>(ls@),
            Err(m) => resolution_of(selection@, subsystem.name@, layers_of(subsystem.layers_view()))
                == Err::<Seq<Layer>, Seq<char>>(m@),
        },
{
    let avail = subsystem.available_layers();
    match selection {
        LayerSelection::Bool(true) => Ok(avail),
        LayerSelection::Bool(false) => Ok(Vec::new()),
        LayerSelection::Single(s) => {
            if str_eq(s.as_str(), "all") {
                return Ok(avail);
            }
            match checked_layer_exec(s.as_str(), subsystem, &avail) {
                Err(m) => Err(m),
                Ok(l) => {
                    let mut v = Vec::new();
                    v.push(l);
                    assert(v@ =~= seq![l]);
                    Ok(v)
                },
            }
        },
        LayerSelection::Multiple(names) => {
            let ghost nv = texts(names@);
            let mut result: Vec<Layer> = Vec::new();
            let mut i: usize = 0;
            while i < names.len()
                invariant
                    0 <= i <= names@.len(),
                    nv == texts(names@),
                    selection@ == LayerSelectionView::Multiple(nv),
                    avail@ == layers_of(subsystem.layers_view()),
                    resolve_names(nv.take(i as int), subsystem.name@, avail@) == Resolving::Going(
                        result@,
                    ),
                decreases names@.len() - i,
            {
                assert(nv.take(i + 1).drop_last() =~= nv.take(i as int));
                assert(nv.take(i + 1).last() == names@[i as int]@);
                let s = names[i].as_str();
                if str_eq(s, "all") {
                    proof {
                        lemma_resolve_stops(nv, i + 1, subsystem.name@, avail@);
                    }
                    return Ok(avail);
                }
                match checked_layer_exec(s, subsystem, &avail) {
                    Err(m) => {
                        proof {
                            lemma_resolve_stops(nv, i + 1, subsystem.name@, avail@);
                        }
                        return Err(m);
                    },
                    Ok(l) => {
                        if !contains_layer(&result, l) {
                            result.push(l);
                        }
                    },
                }
                i += 1;
            }
            assert(nv.take(i as int) =~= nv);
            Ok(result)
        },
    }
}

proof fn lemma_resolve_stops(names: Seq<Seq<char>>, k: int, sub: Seq<char>, avail: Seq<Layer>)
    requires
        0 <= k <= names.len(),
        !(resolve_names(names.take(k), sub, avail) is Going),
    ensures
        resolve_names(names, sub, avail) == resolve_names(names.take(k), sub, avail),
    decreases names.len() - k,
{
    if k < names.len() {
        assert(names.take(k + 1).drop_last() =~= names.take(k));
        lemma_resolve_stops(names, k + 1, sub, avail);
    } else {
        assert(names.take(k) =~= names);
    }
}

// ---------------------------------------------------------------------------
// Profile
// ---------------------------------------------------------------------------

/// The content of a capture profile as written (e.g. in TOML): its
/// metadata, the layer selection of each Game Boy subsystem, and memory
/// reads as name and hexadecimal address text, in name order.
#[derive(Debug, Clone)]
pub struct ProfileSource {
    pub name: String,
    pub description: String,
    pub trigger: Trigger,
    pub cpu: Option<LayerSelection>,
    pub ppu: Option<LayerSelection>,
    pub apu: Option<LayerSelection>,
    pub timer: Option<LayerSelection>,
    pub interrupt: Option<LayerSelection>,
    pub serial: Option<LayerSelection>,
    pub memory: Vec<(String, String)>,
}

/// A capture profile.
#[derive(Debug, Clone)]
pub struct Profile {
    pub name: String,
    pub description: String,
    pub trigger: Trigger,
    /// Flattened, ordered list of field names to capture.
    pub fields: Vec<String>,
    /// Memory address reads: field name and address, in name order.
    pub memory: Vec<(String, u16)>,
}

/// The address a memory read text denotes: hexadecimal, with an optional
/// `0x`/`0X` prefix.
pub open spec fn hex_addr_of(s: Seq<char>) -> Result<u16, Seq<char>> {
    let t = without_hex_prefix(s);
    match parse_unsigned(t, 16, 0xffff) {
        Some(v) => Ok(v as u16),
        None => Err("invalid hex address: "@ + t),
    }
}

/// The value of a hexadecimal digit `0`-`9`, `a`-`f` or `A`-`F`.
pub open spec fn hex_digit_value(c: char) -> Option<nat> {
    let u = c as u32;
    if 0x30 <= u && u <= 0x39 {
        Some((u - 0x30) as nat)
    } else if 0x61 <= u && u <= 0x66 {
        Some((u - 0x57) as nat)
    } else if 0x41 <= u && u <= 0x46 {
        Some((u - 0x37) as nat)
    } else {
        None
    }
}

/// The value of a numeral in base 16, its most significant digit first.
pub open spec fn base16_value(d: Seq<char>) -> nat
    decreases d.len(),
{
    if d.len() == 0 {
        0
    } else {
        16 * base16_value(d.drop_last()) + hex_digit_value(d.last()).unwrap()
    }
}

/// `s` without a leading `0x` or `0X`.
pub open spec fn unprefixed(s: Seq<char>) -> Seq<char> {
    if s.len() >= 2 && s[0] == '0' && (s[1] == 'x' || s[1] == 'X') {
        s.skip(2)
    } else {
        s
    }
}

/// `t` without a leading `+`.
pub open spec fn unsigned_digits(t: Seq<char>) -> Seq<char> {
    if t.len() > 0 && t[0] == '+' {
        t.skip(1)
    } else {
        t
    }
}

proof fn lemma_base16(d: Seq<char>)
    ensures
        crate::text::all_digits(d, 16) <==> (forall|i: int| 0 <= i < d.len() ==> #[trigger] hex_digit_value(d[i]) is Some),
        (forall|i: int| 0 <= i < d.len() ==> #[trigger] hex_digit_value(d[i]) is Some) ==> crate::text::digits_value(d, 16)
            == base16_value(d),
    decreases d.len(),
{
    assert forall|i: int| 0 <= i < d.len() implies #[trigger] crate::text::digit_value(d[i], 16) == hex_digit_value(d[i]) by {
    }
    if crate::text::all_digits(d, 16) {
        assert forall|i: int| 0 <= i < d.len() implies #[trigger] hex_digit_value(d[i]) is Some by {
            assert(crate::text::digit_value(d[i], 16) is Some);
        }
    }
    if forall|i: int| 0 <= i < d.len() ==> #[trigger] hex_digit_value(d[i]) is Some {
        assert forall|i: int| 0 <= i < d.len() implies #[trigger] crate::text::digit_value(d[i], 16) is Some by {
            assert(hex_digit_value(d[i]) is Some);
        }
    }
    if d.len() > 0 {
        lemma_base16(d.drop_last());
        assert forall|i: int| 0 <= i < d.drop_last().len() implies d.drop_last()[i] == d[i] by {}
        if forall|i: int| 0 <= i < d.len() ==> #[trigger] hex_digit_value(d[i]) is Some {
            assert forall|i: int| 0 <= i < d.drop_last().len() implies #[trigger] hex_digit_value(d.drop_last()[i]) is Some by {
                assert(hex_digit_value(d[i]) is Some);
            }
            assert(crate::text::digit_value(d.last(), 16) == hex_digit_value(d.last()));
        }
    }
}

/// An address is read in base 16: `s`, without an optional `0x` or `0X`
/// prefix (and an optional `+`), must be one or more hexadecimal digits
/// whose value fits in 16 bits, and that value is the address.
pub proof fn law_hex_addr_is_base_16(s: Seq<char>)
    ensures
        (hex_addr_of(s) is Ok) <==> ({
            let d = unsigned_digits(unprefixed(s));
            &&& d.len() > 0
            &&& forall|i: int| 0 <= i < d.len() ==> #[trigger] hex_digit_value(d[i]) is Some
            &&& base16_value(d) <= 0xFFFF
        }),
        hex_addr_of(s) is Ok ==> hex_addr_of(s) == Ok::<u16, Seq<char>>(
            base16_value(unsigned_digits(unprefixed(s))) as u16,
        ),
{
    let t = without_hex_prefix(s);
    reveal_strlit("0x");
    reveal_strlit("0X");
    assert(t == unprefixed(s)) by {
        if crate::text::has_prefix(s, "0x"@) {
            assert(s.subrange(0, 2) == "0x"@);
            assert(s[0] == s.subrange(0, 2)[0] && s[1] == s.subrange(0, 2)[1]);
        } else if crate::text::has_prefix(s, "0X"@) {
            assert(s.subrange(0, 2) == "0X"@);
            assert(s[0] == s.subrange(0, 2)[0] && s[1] == s.subrange(0, 2)[1]);
        } else if s.len() >= 2 && s[0] == '0' && s[1] == 'x' {
            assert(s.subrange(0, 2) =~= "0x"@);
        } else if s.len() >= 2 && s[0] == '0' && s[1] == 'X' {
            assert(s.subrange(0, 2) =~= "0X"@);
        }
    }
    let d = unsigned_digits(t);
    assert(d == (if t.len() > 0 && t[0] == '+' { t.drop_first() } else { t }));
    lemma_base16(d);
}

/// Parse a hexadecimal address.
pub fn parse_hex_addr(s: &str) -> (r: Result<u16, String>)
    ensures
        match r {
            Ok(a) => hex_addr_of(s@) == Ok::<u16, Seq<char>>(a),
            Err(m) => hex_addr_of(s@) == Err::<u16, Seq<char>>(m@),
        },
{
    let v = chars_of(s);
    let t = match strip_prefix_chars(&v, &chars_of("0x")) {
        Some(t) => t,
        None => match strip_prefix_chars(&v, &chars_of("0X")) {
            Some(t) => t,
            None => v,
        },
    };
    match parse_unsigned_exec(&t, 16, 0xffff) {
        Some(a) => Ok(a as u16),
        None => {
            let mut m = chars_of("invalid hex address: ");
            append_chars(&mut m, &t);
            Err(string_of(&m))
        },
    }
}

/// Adding field names to a profile's field list in order, refusing one
/// that is already there.
pub open spec fn add_fields(acc: Result<Seq<Seq<char>>, Seq<char>>, defs: Seq<FieldDef>) -> Result<Seq<Seq<char>>, Seq<char>>
    decreases defs.len(),
{
    if defs.len() == 0 {
        acc
    } else {
        match add_fields(acc, defs.drop_last()) {
            Err(m) => Err(m),
            Ok(fs) => {
                let n = defs.last().name@;
                if fs.contains(n) {
                    Err("duplicate field: "@ + n)
                } else {
                    Ok(fs.push(n))
                }
            },
        }
    }
}

/// Adding the fields a subsystem's selection chooses.
pub open spec fn add_subsystem(
    acc: Result<Seq<Seq<char>>, Seq<char>>,
    sel: Option<LayerSelectionView>,
    sub: Seq<char>,
    ls: Seq<(Layer, Seq<FieldDef>)>,
) -> Result<Seq<Seq<char>>, Seq<char>> {
    match acc {
        Err(m) => Err(m),
        Ok(fs) => match sel {
            None => Ok(fs),
            Some(s) => match resolution_of(s, sub, layers_of(ls)) {
                Err(m) => Err(m),
                Ok(chosen) => add_fields(Ok(fs), flatten_selected(ls, chosen)),
            },
        },
    }
}

/// Adding memory reads in order: a name that is already a field or a
/// known built-in field, or an invalid address, is refused.
pub open spec fn add_memory(
    fields: Seq<Seq<char>>,
    mem: Seq<(Seq<char>, Seq<char>)>,
) -> Result<(Seq<Seq<char>>, Seq<(Seq<char>, u16)>), Seq<char>>
    decreases mem.len(),
{
    if mem.len() == 0 {
        Ok((fields, Seq::empty()))
    } else {
        match add_memory(fields, mem.drop_last()) {
            Err(m) => Err(m),
            Ok((fs, reads)) => {
                let (name, addr) = mem.last();
                if fs.contains(name) || first_named(gb_catalogue(), name) is Some {
                    Err("memory field '"@ + name + "' conflicts with a built-in field"@)
                } else {
                    match hex_addr_of(addr) {
                        Err(e) => Err("memory field '"@ + name + "': "@ + e),
                        Ok(a) => Ok((fs.push(name), reads.push((name, a)))),
                    }
                }
            },
        }
    }
}

impl ProfileSource {
    /// The memory reads as texts.
    pub open spec fn memory_view(&self) -> Seq<(Seq<char>, Seq<char>)> {
        Seq::new(self.memory@.len(), |i: int| (self.memory@[i].0@, self.memory@[i].1@))
    }

    /// The field names this source selects, the cycle count `cy` always
    /// first, or why it is refused.
    pub open spec fn selected_fields(&self) -> Result<Seq<Seq<char>>, Seq<char>> {
        let sel = |o: Option<LayerSelection>|
            match o {
                Some(s) => Some(s@),
                None => None,
            };
        let a0 = Ok(seq!["cy"@]);
        let a1 = add_subsystem(a0, sel(self.cpu), "cpu"@, gb_cpu_layers());
        let a2 = add_subsystem(a1, sel(self.ppu), "ppu"@, gb_ppu_layers());
        let a3 = add_subsystem(a2, sel(self.apu), "apu"@, gb_apu_layers());
        let a4 = add_subsystem(a3, sel(self.timer), "timer"@, gb_timer_layers());
        let a5 = add_subsystem(a4, sel(self.interrupt), "interrupt"@, gb_interrupt_layers());
        add_subsystem(a5, sel(self.serial), "serial"@, gb_serial_layers())
    }

    /// The profile's fields and memory reads, or why it is refused.
    pub open spec fn resolved(&self) -> Result<(Seq<Seq<char>>, Seq<(Seq<char>, u16)>), Seq<char>> {
        match self.selected_fields() {
            Err(m) => Err(m),
            Ok(fs) => add_memory(fs, self.memory_view()),
        }
    }
}

impl Profile {
    /// The memory reads with their names as texts.
    pub open spec fn memory_view(&self) -> Seq<(Seq<char>, u16)> {
        reads_view(self.memory@)
    }

    /// The field names as texts.
    pub open spec fn fields_view(&self) -> Seq<Seq<char>> {
        texts(self.fields@)
    }
}

/// Memory reads with their names as texts.
pub open spec fn reads_view(v: Seq<(String, u16)>) -> Seq<(Seq<char>, u16)> {
    Seq::new(v.len(), |i: int| (v[i].0@, v[i].1))
}

/// The field names of a list, as texts.
pub open spec fn texts(v: Seq<String>) -> Seq<Seq<char>> {
    Seq::new(v.len(), |i: int| v[i]@)
}

proof fn lemma_texts_contains(v: Seq<String>, n: Seq<char>)
    ensures
        texts(v).contains(n) == names_field(v, n),
{
    if names_field(v, n) {
        let i = choose|i: int| 0 <= i < v.len() && #[trigger] v[i]@ == n;
        assert(texts(v)[i] == n);
    }
    if texts(v).contains(n) {
        let i = choose|i: int| 0 <= i < texts(v).len() && texts(v)[i] == n;
        assert(v[i]@ == n);
    }
}

/// Adds the names of `defs` to `fields`, refusing duplicates.
fn add_fields_exec(fields: &mut Vec<String>, defs: &Vec<FieldDef>) -> (r: Result<(), String>)
    ensures
        match r {
            Ok(()) => add_fields(Ok(texts(old(fields)@)), defs@) == Ok::<Seq<Seq<char>>, Seq<char>>(
                texts(final(fields)@),
            ),
            Err(m) => add_fields(Ok(texts(old(fields)@)), defs@) == Err::<Seq<Seq<char>>, Seq<char>>(
                m@,
            ),
        },
{
    let ghost f0 = texts(fields@);
    let mut i: usize = 0;
    while i < defs.len()
        invariant
            0 <= i <= defs@.len(),
            f0 == texts(old(fields)@),
            add_fields(Ok(f0), defs@.take(i as int)) == Ok::<Seq<Seq<char>>, Seq<char>>(
                texts(fields@),
            ),
        decreases defs@.len() - i,
    {
        assert(defs@.take(i + 1).drop_last() =~= defs@.take(i as int));
        let name = defs[i].name;
        proof {
            lemma_texts_contains(fields@, name@);
        }
        if contains_name(fields, name) {
            proof {
                lemma_add_fields_stops(f0, defs@, i + 1);
            }
            let mut m = chars_of("duplicate field: ");
            append_str(&mut m, name);
            return Err(string_of(&m));
        }
        let ghost before = fields@;
        fields.push(string_of(&chars_of(name)));
        assert(texts(fields@) =~= texts(before).push(name@));
        i += 1;
    }
    assert(defs@.take(i as int) =~= defs@);
    Ok(())
}

proof fn lemma_add_fields_stops(f0: Seq<Seq<char>>, defs: Seq<FieldDef>, k: int)
    requires
        0 <= k <= defs.len(),
        add_fields(Ok(f0), defs.take(k)) is Err,
    ensures
        add_fields(Ok(f0), defs) == add_fields(Ok(f0), defs.take(k)),
    decreases defs.len() - k,
{
    if k < defs.len() {
        assert(defs.take(k + 1).drop_last() =~= defs.take(k));
        lemma_add_fields_stops(f0, defs, k + 1);
    } else {
        assert(defs.take(k) =~= defs);
    }
}

/// Adds the fields a subsystem's selection chooses to `fields`.
fn add_subsystem_exec(
    fields: &mut Vec<String>,
    sel: &Option<LayerSelection>,
    subsystem: &SubsystemDef,
) -> (r: Result<(), String>)
    ensures
        match r {
            Ok(()) => add_subsystem(
                Ok(texts(old(fields)@)),
                match sel {
                    Some(s) => Some(s@),
                    None => None,
                },
                subsystem.name@,
                subsystem.layers_view(),
            ) == Ok::<Seq<Seq<char>>, Seq<char>>(texts(final(fields)@)),
            Err(m) => add_subsystem(
                Ok(texts(old(fields)@)),
                match sel {
                    Some(s) => Some(s@),
                    None => None,
                },
                subsystem.name@,
                subsystem.layers_view(),
            ) == Err::<Seq<Seq<char>>, Seq<char>>(m@),
        },
{
    match sel {
        None => Ok(()),
        Some(s) => match resolve_layers(s, subsystem) {
            Err(m) => Err(m),
            Ok(layers) => {
                let defs = subsystem.fields_for_layers(&layers);
                add_fields_exec(fields, &defs)
            },
        },
    }
}

impl Profile {
    /// Build a profile from its source: the cycle count `cy` first, then
    /// each subsystem's layer selection resolved into fields (CPU, PPU,
    /// APU, timer, interrupt, serial),
    /// refusing duplicate fields, then add the memory reads.
    pub fn from_source(raw: &ProfileSource) -> (r: Result<Profile, Error>)
        ensures
            match r {
                Ok(p) => raw.resolved() == Ok::<(Seq<Seq<char>>, Seq<(Seq<char>, u16)>), Seq<char>>(
                    (p.fields_view(), p.memory_view()),
                ) && p.name == raw.name && p.description == raw.description && p.trigger
                    == raw.trigger,
                Err(e) => e matches Error::Profile(m) && raw.resolved() == Err::<
                    (Seq<Seq<char>>, Seq<(Seq<char>, u16)>),
                    Seq<char>,
                >(m@),
            },
    {
        let mut fields: Vec<String> = Vec::new();
        fields.push(string_of(&chars_of("cy")));
        assert(texts(fields@) =~= seq!["cy"@]);
        let subs = all_subsystems();
        if let Err(m) = add_subsystem_exec(&mut fields, &raw.cpu, &subs[0]) {
            return Err(Error::Profile(m));
        }
        if let Err(m) = add_subsystem_exec(&mut fields, &raw.ppu, &subs[1]) {
            return Err(Error::Profile(m));
        }
        if let Err(m) = add_subsystem_exec(&mut fields, &raw.apu, &subs[2]) {
            return Err(Error::Profile(m));
        }
        if let Err(m) = add_subsystem_exec(&mut fields, &raw.timer, &subs[3]) {
            return Err(Error::Profile(m));
        }
        if let Err(m) = add_subsystem_exec(&mut fields, &raw.interrupt, &subs[4]) {
            return Err(Error::Profile(m));
        }
        if let Err(m) = add_subsystem_exec(&mut fields, &raw.serial, &subs[5]) {
            return Err(Error::Profile(m));
        }
        assert(raw.selected_fields() == Ok::<Seq<Seq<char>>, Seq<char>>(texts(fields@)));
        let ghost f0 = texts(fields@);
        let mut memory: Vec<(String, u16)> = Vec::new();
        assert(reads_view(memory@) =~= Seq::<(Seq<char>, u16)>::empty());
        let mut i: usize = 0;
        while i < raw.memory.len()
            invariant
                0 <= i <= raw.memory@.len(),
                raw.selected_fields() == Ok::<Seq<Seq<char>>, Seq<char>>(f0),
                add_memory(f0, raw.memory_view().take(i as int)) == Ok::<
                    (Seq<Seq<char>>, Seq<(Seq<char>, u16)>),
                    Seq<char>,
                >((texts(fields@), reads_view(memory@))),
            decreases raw.memory@.len() - i,
        {
            let ghost mv = raw.memory_view();
            assert(mv.take(i + 1).drop_last() =~= mv.take(i as int));
            assert(mv.take(i + 1).last() == (raw.memory@[i as int].0@, raw.memory@[i as int].1@));
            let name = &raw.memory[i].0;
            let addr = &raw.memory[i].1;
            proof {
                lemma_texts_contains(fields@, name@);
            }
            if contains_name(&fields, name.as_str()) || is_known_field(name.as_str()) {
                proof {
                    lemma_add_memory_stops(f0, mv, i + 1);
                }
                let mut m = chars_of("memory field '");
                append_str(&mut m, name.as_str());
                append_str(&mut m, "' conflicts with a built-in field");
                return Err(Error::Profile(string_of(&m)));
            }
            match parse_hex_addr(addr.as_str()) {
                Err(e) => {
                    proof {
                        lemma_add_memory_stops(f0, mv, i + 1);
                    }
                    let mut m = chars_of("memory field '");
                    append_str(&mut m, name.as_str());
                    append_str(&mut m, "': ");
                    append_str(&mut m, e.as_str());
                    assert(m@ =~= "memory field '"@ + name@ + "': "@ + e@);
                    return Err(Error::Profile(string_of(&m)));
                },
                Ok(a) => {
                    let ghost fb = fields@;
                    let ghost mb = memory@;
                    fields.push(name.clone());
                    memory.push((name.clone(), a));
                    assert(texts(fields@) =~= texts(fb).push(name@));
                    assert(reads_view(memory@) =~= reads_view(mb).push((name@, a)));
                },
            }
            i += 1;
        }
        assert(raw.memory_view().take(i as int) =~= raw.memory_view());
        let p = Profile {
            name: raw.name.clone(),
            description: raw.description.clone(),
            trigger: raw.trigger,
            fields,
            memory,
        };
        Ok(p)
    }
}

proof fn lemma_add_memory_stops(f0: Seq<Seq<char>>, mem: Seq<(Seq<char>, Seq<char>)>, k: int)
    requires
        0 <= k <= mem.len(),
        add_memory(f0, mem.take(k)) is Err,
    ensures
        add_memory(f0, mem) == add_memory(f0, mem.take(k)),
    decreases mem.len() - k,
{
    if k < mem.len() {
        assert(mem.take(k + 1).drop_last() =~= mem.take(k));
        lemma_add_memory_stops(f0, mem, k + 1);
    } else {
        assert(mem.take(k) =~= mem);
    }
}

} // verus!
