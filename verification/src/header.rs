//! The trace header: what emulator produced a trace, how, and which fields
//! each entry holds.
use vstd::prelude::*;

use crate::error::Error;
use crate::text::{chars_of, concat3, has_prefix, str_eq, strip_prefix, strip_prefix_chars, string_of};

verus! {

/// How the boot ROM was handled for a trace.
///
/// Its text form is a plain string: `"skip"`, `"builtin"`,
/// `"stripped:<original>"`, or the SHA-256 of the boot ROM used.
#[derive(Debug, Clone, PartialEq, Eq)]
pub enum BootRom {
    /// Boot ROM was skipped; initial state is post-boot.
    Skip,
    /// Emulator's built-in boot ROM was used.
    Builtin,
    /// Boot ROM entries were stripped after capture; holds the original value.
    Stripped(String),
    /// A specific boot ROM was used, identified by SHA-256.
    Sha256(String),
}

/// The mathematical value of a [`BootRom`].
pub enum BootRomView {
    Skip,
    Builtin,
    Stripped(Seq<char>),
    Sha256(Seq<char>),
}

impl View for BootRom {
    type V = BootRomView;

    open spec fn view(&self) -> BootRomView {
        match self {
            BootRom::Skip => BootRomView::Skip,
            BootRom::Builtin => BootRomView::Builtin,
            BootRom::Stripped(s) => BootRomView::Stripped(s@),
            BootRom::Sha256(s) => BootRomView::Sha256(s@),
        }
    }
}

/// The stripped form of a boot ROM value.
pub open spec fn stripped_of(b: BootRomView) -> BootRomView {
    match b {
        BootRomView::Skip => BootRomView::Skip,
        BootRomView::Builtin => BootRomView::Stripped("builtin"@),
        BootRomView::Stripped(s) => BootRomView::Stripped(s),
        BootRomView::Sha256(h) => BootRomView::Stripped(h),
    }
}

/// The text form of a boot ROM value.
pub open spec fn boot_rom_text(b: BootRomView) -> Seq<char> {
    match b {
        BootRomView::Skip => "skip"@,
        BootRomView::Builtin => "builtin"@,
        BootRomView::Stripped(s) => "stripped:"@ + s,
        BootRomView::Sha256(h) => h,
    }
}

/// The boot ROM value a text denotes.
pub open spec fn boot_rom_of_text(s: Seq<char>) -> BootRomView {
    if s == "skip"@ {
        BootRomView::Skip
    } else if s == "builtin"@ {
        BootRomView::Builtin
    } else if has_prefix(s, "stripped:"@) {
        BootRomView::Stripped(strip_prefix(s, "stripped:"@).unwrap())
    } else {
        BootRomView::Sha256(s)
    }
}

impl BootRom {
    /// Whether two boot ROM values are the same.
    pub fn same_as(&self, other: &BootRom) -> (r: bool)
        ensures
            r == (self@ == other@),
    {
        match (self, other) {
            (BootRom::Skip, BootRom::Skip) => true,
            (BootRom::Builtin, BootRom::Builtin) => true,
            (BootRom::Stripped(p), BootRom::Stripped(q)) => str_eq(p.as_str(), q.as_str()),
            (BootRom::Sha256(p), BootRom::Sha256(q)) => str_eq(p.as_str(), q.as_str()),
            _ => false,
        }
    }

    /// Return the stripped variant, preserving the original boot ROM info.
    pub fn to_stripped(&self) -> (r: BootRom)
        ensures
            r@ == stripped_of(self@),
    {
        match self {
            BootRom::Skip => BootRom::Skip,
            BootRom::Builtin => BootRom::Stripped(string_of(&chars_of("builtin"))),
            BootRom::Stripped(s) => BootRom::Stripped(s.clone()),
            BootRom::Sha256(hash) => BootRom::Stripped(hash.clone()),
        }
    }

    /// The text form of this value.
    pub fn to_text(&self) -> (r: String)
        ensures
            r@ == boot_rom_text(self@),
    {
        match self {
            BootRom::Skip => string_of(&chars_of("skip")),
            BootRom::Builtin => string_of(&chars_of("builtin")),
            BootRom::Stripped(original) => {
                proof {
                    reveal_strlit("");
                }
                let r = concat3("stripped:", &chars_of(original.as_str()), "");
                assert(r@ =~= "stripped:"@ + original@);
                r
            },
            BootRom::Sha256(hash) => hash.clone(),
        }
    }

    /// The value a text denotes.
    pub fn from_text(s: &str) -> (r: BootRom)
        ensures
            r@ == boot_rom_of_text(s@),
    {
        proof {
            reveal_strlit("");
        }
        if str_eq(s, "skip") {
            return BootRom::Skip;
        }
        if str_eq(s, "builtin") {
            return BootRom::Builtin;
        }
        let v = chars_of(s);
        match strip_prefix_chars(&v, &chars_of("stripped:")) {
            Some(rest) => BootRom::Stripped(string_of(&rest)),
            None => BootRom::Sha256(string_of(&v)),
        }
    }
}

/// Reading back the text form of a text gives that text again: every
/// text names exactly one boot ROM value.
pub proof fn law_boot_rom_text_round_trip(s: Seq<char>)
    ensures
        boot_rom_text(boot_rom_of_text(s)) == s,
{
    if s != "skip"@ && s != "builtin"@ && has_prefix(s, "stripped:"@) {
        let p = "stripped:"@;
        assert(p + s.skip(p.len() as int) =~= s);
    }
}

/// A boot ROM value survives its text form, unless it is a SHA-256 whose
/// text reads as one of the other forms.
pub proof fn law_boot_rom_value_round_trip(b: BootRomView)
    requires
        b matches BootRomView::Sha256(h) ==> (h != "skip"@ && h != "builtin"@ && !has_prefix(
            h,
            "stripped:"@,
        )),
    ensures
        boot_rom_of_text(boot_rom_text(b)) == b,
{
    reveal_strlit("skip");
    reveal_strlit("builtin");
    reveal_strlit("stripped:");
    match b {
        BootRomView::Stripped(x) => {
            let t = "stripped:"@ + x;
            assert(t.len() >= 9);
            assert(t != "skip"@);
            assert(t != "builtin"@);
            assert(t.subrange(0, 9) =~= "stripped:"@);
            assert(t.skip(9) =~= x);
        },
        _ => {},
    }
}

/// Stripping an already stripped value changes nothing.
pub proof fn law_to_stripped_idempotent(b: BootRomView)
    ensures
        stripped_of(stripped_of(b)) == stripped_of(b),
{
}

/// When trace entries are emitted.
#[derive(Debug, Clone, Copy, PartialEq, Eq)]
pub enum Trigger {
    Instruction,
    Tcycle,
    Scanline,
    Frame,
    Custom,
}

/// The header of a trace.
#[derive(Debug, Clone)]
pub struct TraceHeader {
    /// Always `true`. Identifies this record as the header.
    pub _header: bool,
    /// Spec version (semver).
    pub format_version: String,
    /// Emulator identifier (lowercase, no spaces).
    pub emulator: String,
    /// Emulator version string.
    pub emulator_version: String,
    /// SHA-256 hex digest of the ROM file.
    pub rom_sha256: String,
    /// Hardware model identifier (e.g. "DMG-B", "CGB-E").
    pub model: String,
    /// How the boot ROM was handled.
    pub boot_rom: BootRom,
    /// Name of the capture profile used.
    pub profile: String,
    /// Ordered list of field names present in each state entry.
    pub fields: Vec<String>,
    /// When entries are emitted.
    pub trigger: Trigger,
    /// Optional freeform notes.
    pub notes: String,
}

/// The mathematical value of a [`TraceHeader`].
pub struct HeaderView {
    pub header_flag: bool,
    pub format_version: Seq<char>,
    pub emulator: Seq<char>,
    pub emulator_version: Seq<char>,
    pub rom_sha256: Seq<char>,
    pub model: Seq<char>,
    pub boot_rom: BootRomView,
    pub profile: Seq<char>,
    pub fields: Seq<Seq<char>>,
    pub trigger: Trigger,
    pub notes: Seq<char>,
}

/// The texts of a list of strings.
pub open spec fn string_texts(v: Seq<String>) -> Seq<Seq<char>> {
    Seq::new(v.len(), |i: int| v[i]@)
}

impl View for TraceHeader {
    type V = HeaderView;

    open spec fn view(&self) -> HeaderView {
        HeaderView {
            header_flag: self._header,
            format_version: self.format_version@,
            emulator: self.emulator@,
            emulator_version: self.emulator_version@,
            rom_sha256: self.rom_sha256@,
            model: self.model@,
            boot_rom: self.boot_rom@,
            profile: self.profile@,
            fields: string_texts(self.fields@),
            trigger: self.trigger,
            notes: self.notes@,
        }
    }
}

/// Whether the field list names a field `name`.
pub open spec fn names_field(fields: Seq<String>, name: Seq<char>) -> bool {
    exists|i: int| 0 <= i < fields.len() && #[trigger] fields[i]@ == name
}

/// What `TraceHeader::validate` answers for a header.
pub open spec fn validation_of(h: TraceHeader) -> Result<(), Seq<char>> {
    if !h._header {
        Err("_header must be true"@)
    } else if h.fields@.len() == 0 {
        Err("fields must not be empty"@)
    } else if !names_field(h.fields@, "cy"@) {
        Err("fields must contain 'cy'"@)
    } else {
        Ok(())
    }
}

/// Whether `name` is one of `fields`.
pub fn contains_name(fields: &Vec<String>, name: &str) -> (r: bool)
    ensures
        r == names_field(fields@, name@),
{
    let mut i: usize = 0;
    while i < fields.len()
        invariant
            0 <= i <= fields@.len(),
            forall|k: int| 0 <= k < i ==> fields@[k]@ != name@,
        decreases fields@.len() - i,
    {
        if str_eq(fields[i].as_str(), name) {
            return true;
        }
        i += 1;
    }
    false
}

/// A copy of a list of strings.
pub fn copy_strings(v: &Vec<String>) -> (r: Vec<String>)
    ensures
        r@ == v@,
{
    let mut r: Vec<String> = Vec::new();
    let mut i: usize = 0;
    while i < v.len()
        invariant
            0 <= i <= v@.len(),
            r@ == v@.take(i as int),
        decreases v@.len() - i,
    {
        r.push(v[i].clone());
        i += 1;
        assert(r@ =~= v@.take(i as int));
    }
    assert(v@.take(i as int) =~= v@);
    r
}

impl TraceHeader {
    /// Whether two headers agree in every field.
    pub open spec fn same_as(self, other: TraceHeader) -> bool {
        &&& self._header == other._header
        &&& self.format_version == other.format_version
        &&& self.emulator == other.emulator
        &&& self.emulator_version == other.emulator_version
        &&& self.rom_sha256 == other.rom_sha256
        &&& self.model == other.model
        &&& self.boot_rom == other.boot_rom
        &&& self.profile == other.profile
        &&& self.fields@ == other.fields@
        &&& self.trigger == other.trigger
        &&& self.notes == other.notes
    }

    /// Validate the header's invariants: `_header` is set, and the field
    /// list is not empty and holds `cy`.
    pub fn validate(&self) -> (r: Result<(), Error>)
        ensures
            match r {
                Ok(()) => validation_of(*self) is Ok,
                Err(e) => e matches Error::InvalidHeader(m) && validation_of(*self) == Err::<(), Seq<char>>(m@),
            },
    {
        if !self._header {
            return Err(Error::InvalidHeader(string_of(&chars_of("_header must be true"))));
        }
        if self.fields.len() == 0 {
            return Err(Error::InvalidHeader(string_of(&chars_of("fields must not be empty"))));
        }
        if !contains_name(&self.fields, "cy") {
            return Err(Error::InvalidHeader(string_of(&chars_of("fields must contain 'cy'"))));
        }
        Ok(())
    }

    /// A copy of this header, equal to it in every field.
    pub fn duplicate(&self) -> (r: TraceHeader)
        ensures
            r.same_as(*self),
            r@ == self@,
    {
        let boot_rom = match &self.boot_rom {
            BootRom::Skip => BootRom::Skip,
            BootRom::Builtin => BootRom::Builtin,
            BootRom::Stripped(s) => BootRom::Stripped(s.clone()),
            BootRom::Sha256(s) => BootRom::Sha256(s.clone()),
        };
        let fields = copy_strings(&self.fields);
        assert(string_texts(fields@) =~= string_texts(self.fields@));
        TraceHeader {
            _header: self._header,
            format_version: self.format_version.clone(),
            emulator: self.emulator.clone(),
            emulator_version: self.emulator_version.clone(),
            rom_sha256: self.rom_sha256.clone(),
            model: self.model.clone(),
            boot_rom,
            profile: self.profile.clone(),
            fields,
            trigger: self.trigger,
            notes: self.notes.clone(),
        }
    }
}

} // verus!
