//! Query conditions for filtering and searching trace entries, and their
//! parser from human-readable text.
use vstd::prelude::*;

use crate::column_store::bit_of;
use crate::entry::{value_u64, value_u8, FieldValue, FieldValueView, TraceEntry};
use crate::text::{
    chars_eq, chars_of, concat3, dec_exec, dec_text, find, find_char, find_char_exec, find_chars,
    has_prefix, has_suffix, lower, lower_exec, parse_unsigned, parse_unsigned_exec, slice_chars,
    string_of, strip_prefix, strip_prefix_chars, strip_suffix, strip_suffix_chars, trim, trim_chars,
};

verus! {

/// A condition that can be evaluated against trace entries.
///
/// Some conditions are stateless (e.g. `FieldEquals`) and can be checked
/// against a single entry. Others are stateful (e.g. `FieldChanges`) and
/// need the previous entry as well.
#[derive(Debug)]
pub enum Condition {
    /// Field equals a specific value.
    FieldEquals { field: String, value: String },
    /// Field changed to any different value since the previous entry.
    FieldChanges { field: String },
    /// Field changed to a specific value (was something else before).
    FieldChangesTo { field: String, value: String },
    /// Field changed from a specific value (was that value, now isn't).
    FieldChangesFrom { field: String, value: String },
    /// PPU enters the specified mode (0=HBlank, 1=VBlank, 2=OAM, 3=Drawing),
    /// from STAT bits 0-1.
    PpuEntersMode(u8),
    /// LCD turns on (LCDC bit 7 goes 0 to 1).
    LcdTurnsOn,
    /// LCD turns off (LCDC bit 7 goes 1 to 0).
    LcdTurnsOff,
    /// Timer overflow: TIMA falls from above 0x80.
    TimerOverflow,
    /// An interrupt fires (IF bit goes 0 to 1): 0=VBlank, 1=STAT,
    /// 2=Timer, 3=Serial, 4=Joypad.
    InterruptFires(u8),
    /// CPU flag is set (F register bit: Z=7, N=6, H=5, C=4).
    FlagSet(u8),
    /// CPU flag is clear.
    FlagClear(u8),
    /// CPU flag goes from clear to set.
    FlagBecomesSet(u8),
    /// CPU flag goes from set to clear.
    FlagBecomesClear(u8),
    /// Bitwise-AND test: `(field & mask) != 0`.
    FieldBitMask { field: String, mask: u64 },
    /// Bitwise-AND equality test: `(field & mask) == value`.
    FieldBitMaskEquals { field: String, mask: u64, value: u64 },
    /// All sub-conditions must match.
    All(Vec<Condition>),
    /// Any sub-condition must match.
    Any(Vec<Condition>),
}

/// The shape of a condition, with its texts as character sequences
/// (compound conditions without their parts).
pub enum ConditionShape {
    FieldEquals(Seq<char>, Seq<char>),
    FieldChanges(Seq<char>),
    FieldChangesTo(Seq<char>, Seq<char>),
    FieldChangesFrom(Seq<char>, Seq<char>),
    PpuEntersMode(u8),
    LcdTurnsOn,
    LcdTurnsOff,
    TimerOverflow,
    InterruptFires(u8),
    FlagSet(u8),
    FlagClear(u8),
    FlagBecomesSet(u8),
    FlagBecomesClear(u8),
    FieldBitMask(Seq<char>, u64),
    FieldBitMaskEquals(Seq<char>, u64, u64),
    All,
    Any,
}

impl Condition {
    /// The shape of this condition.
    pub open spec fn shape(&self) -> ConditionShape {
        match self {
            Condition::FieldEquals { field, value } => ConditionShape::FieldEquals(field@, value@),
            Condition::FieldChanges { field } => ConditionShape::FieldChanges(field@),
            Condition::FieldChangesTo { field, value } => ConditionShape::FieldChangesTo(
                field@,
                value@,
            ),
            Condition::FieldChangesFrom { field, value } => ConditionShape::FieldChangesFrom(
                field@,
                value@,
            ),
            Condition::PpuEntersMode(m) => ConditionShape::PpuEntersMode(*m),
            Condition::LcdTurnsOn => ConditionShape::LcdTurnsOn,
            Condition::LcdTurnsOff => ConditionShape::LcdTurnsOff,
            Condition::TimerOverflow => ConditionShape::TimerOverflow,
            Condition::InterruptFires(b) => ConditionShape::InterruptFires(*b),
            Condition::FlagSet(b) => ConditionShape::FlagSet(*b),
            Condition::FlagClear(b) => ConditionShape::FlagClear(*b),
            Condition::FlagBecomesSet(b) => ConditionShape::FlagBecomesSet(*b),
            Condition::FlagBecomesClear(b) => ConditionShape::FlagBecomesClear(*b),
            Condition::FieldBitMask { field, mask } => ConditionShape::FieldBitMask(field@, *mask),
            Condition::FieldBitMaskEquals { field, mask, value } => ConditionShape::FieldBitMaskEquals(
                field@,
                *mask,
                *value,
            ),
            Condition::All(_) => ConditionShape::All,
            Condition::Any(_) => ConditionShape::Any,
        }
    }
}

/// Whether a condition needs the previous entry.
pub open spec fn stateful(c: Condition) -> bool
    decreases c, 1int,
{
    match c {
        Condition::FieldEquals { .. } | Condition::FlagSet(_) | Condition::FlagClear(_)
        | Condition::FieldBitMask { .. } | Condition::FieldBitMaskEquals { .. } => false,
        Condition::FieldChanges { .. } | Condition::FieldChangesTo { .. }
        | Condition::FieldChangesFrom { .. } | Condition::PpuEntersMode(_) | Condition::LcdTurnsOn
        | Condition::LcdTurnsOff | Condition::TimerOverflow | Condition::InterruptFires(_)
        | Condition::FlagBecomesSet(_) | Condition::FlagBecomesClear(_) => true,
        Condition::All(cs) => any_stateful(cs@),
        Condition::Any(cs) => any_stateful(cs@),
    }
}

/// Whether any of the conditions needs the previous entry.
pub open spec fn any_stateful(cs: Seq<Condition>) -> bool
    decreases cs, 0int,
{
    if cs.len() == 0 {
        false
    } else {
        any_stateful(cs.drop_last()) || stateful(cs.last())
    }
}

impl Condition {
    /// Whether this condition requires state from the previous entry.
    pub fn is_stateful(&self) -> (r: bool)
        ensures
            r == stateful(*self),
        decreases self, 1int,
    {
        match self {
            Condition::FieldEquals { .. } | Condition::FlagSet(_) | Condition::FlagClear(_)
            | Condition::FieldBitMask { .. } | Condition::FieldBitMaskEquals { .. } => false,
            Condition::FieldChanges { .. } | Condition::FieldChangesTo { .. }
            | Condition::FieldChangesFrom { .. } | Condition::PpuEntersMode(_)
            | Condition::LcdTurnsOn | Condition::LcdTurnsOff | Condition::TimerOverflow
            | Condition::InterruptFires(_) | Condition::FlagBecomesSet(_)
            | Condition::FlagBecomesClear(_) => true,
            Condition::All(cs) => conditions_stateful(cs),
            Condition::Any(cs) => conditions_stateful(cs),
        }
    }
}

/// Whether any of the conditions needs the previous entry.
fn conditions_stateful(cs: &Vec<Condition>) -> (r: bool)
    ensures
        r == any_stateful(cs@),
    decreases cs, 0int,
{
    let mut i: usize = 0;
    while i < cs.len()
        invariant
            0 <= i <= cs@.len(),
            !any_stateful(cs@.take(i as int)),
        decreases cs@.len() - i,
    {
        proof {
            assert(decreases_to!(*cs => cs@));
            assert(decreases_to!(cs@ => cs@[i as int]));
            assert(cs@.take(i + 1).drop_last() =~= cs@.take(i as int));
        }
        if cs[i].is_stateful() {
            proof {
                lemma_any_stateful_prefix(cs@, i + 1);
            }
            return true;
        }
        i += 1;
    }
    assert(cs@.take(i as int) =~= cs@);
    false
}

proof fn lemma_any_stateful_prefix(cs: Seq<Condition>, k: int)
    requires
        0 <= k <= cs.len(),
        any_stateful(cs.take(k)),
    ensures
        any_stateful(cs),
    decreases cs.len() - k,
{
    if k < cs.len() {
        assert(cs.take(k + 1).drop_last() =~= cs.take(k));
        lemma_any_stateful_prefix(cs, k + 1);
    } else {
        assert(cs.take(k) =~= cs);
    }
}

// ---------------------------------------------------------------------------
// Numbers and flags
// ---------------------------------------------------------------------------

/// `s` without a leading `0x` or `0X`.
pub open spec fn without_hex_prefix(s: Seq<char>) -> Seq<char> {
    if has_prefix(s, "0x"@) {
        strip_prefix(s, "0x"@).unwrap()
    } else if has_prefix(s, "0X"@) {
        strip_prefix(s, "0X"@).unwrap()
    } else {
        s
    }
}

/// The number a text of user input denotes: always hexadecimal, with or
/// without a `0x` prefix, surrounded by optional whitespace.
pub open spec fn number_of(s: Seq<char>) -> Option<nat> {
    parse_unsigned(without_hex_prefix(trim(s)), 16, u64::MAX as nat)
}

fn without_hex_prefix_exec(s: &Vec<char>) -> (r: Vec<char>)
    ensures
        r@ == without_hex_prefix(s@),
{
    match strip_prefix_chars(s, &chars_of("0x")) {
        Some(t) => t,
        None => match strip_prefix_chars(s, &chars_of("0X")) {
            Some(t) => t,
            None => slice_chars(s, 0, s.len()),
        },
    }
}

/// `number_of` on a character sequence.
pub fn parse_number_chars(s: &Vec<char>) -> (r: Option<u64>)
    ensures
        match r {
            Some(v) => number_of(s@) == Some(v as nat),
            None => number_of(s@) is None,
        },
{
    let t = trim_chars(s);
    let h = without_hex_prefix_exec(&t);
    parse_unsigned_exec(&h, 16, u64::MAX)
}

/// Parse a number from user input. Always treats it as hex (with or
/// without `0x` prefix).
pub fn parse_number(s: &str) -> (r: Option<u64>)
    ensures
        match r {
            Some(v) => number_of(s@) == Some(v as nat),
            None => number_of(s@) is None,
        },
{
    parse_number_chars(&chars_of(s))
}

/// The F-register bit of a CPU flag name (ASCII case-insensitive).
pub open spec fn flag_bit_of(name: Seq<char>) -> Result<u8, Seq<char>> {
    let l = lower(name);
    if l == "z"@ || l == "zero"@ {
        Ok(7)
    } else if l == "n"@ || l == "sub"@ || l == "subtract"@ {
        Ok(6)
    } else if l == "h"@ || l == "half"@ || l == "halfcarry"@ {
        Ok(5)
    } else if l == "c"@ || l == "carry"@ {
        Ok(4)
    } else {
        Err("unknown flag '"@ + name + "': expected z, n, h, or c"@)
    }
}

fn is_word(v: &Vec<char>, w: &str) -> (r: bool)
    ensures
        r == (v@ == w@),
{
    chars_eq(v, &chars_of(w))
}

/// Map a CPU flag name to its bit position in the F register.
///
/// Names compare case-insensitively: `to_lowercase` maps no other
/// character onto the ASCII letters of the flag names.
pub fn flag_bit(name: &Vec<char>) -> (r: Result<u8, String>)
    ensures
        match r {
            Ok(b) => flag_bit_of(name@) == Ok::<u8, Seq<char>>(b),
            Err(m) => flag_bit_of(name@) == Err::<u8, Seq<char>>(m@),
        },
{
    let l = lower_exec(name);
    if is_word(&l, "z") || is_word(&l, "zero") {
        Ok(7)
    } else if is_word(&l, "n") || is_word(&l, "sub") || is_word(&l, "subtract") {
        Ok(6)
    } else if is_word(&l, "h") || is_word(&l, "half") || is_word(&l, "halfcarry") {
        Ok(5)
    } else if is_word(&l, "c") || is_word(&l, "carry") {
        Ok(4)
    } else {
        Err(concat3("unknown flag '", name, "': expected z, n, h, or c"))
    }
}

// ---------------------------------------------------------------------------
// Parsing
// ---------------------------------------------------------------------------

/// The result of parsing `flag ...` with `rest` the text after `flag `.
pub open spec fn flag_condition_of(s: Seq<char>, rest0: Seq<char>) -> Result<ConditionShape, Seq<char>> {
    let rest = trim(rest0);
    if has_suffix(rest, " becomes set"@) {
        match flag_bit_of(trim(strip_suffix(rest, " becomes set"@).unwrap())) {
            Ok(b) => Ok(ConditionShape::FlagBecomesSet(b)),
            Err(m) => Err(m),
        }
    } else if has_suffix(rest, " becomes clear"@) {
        match flag_bit_of(trim(strip_suffix(rest, " becomes clear"@).unwrap())) {
            Ok(b) => Ok(ConditionShape::FlagBecomesClear(b)),
            Err(m) => Err(m),
        }
    } else if has_suffix(rest, " set"@) {
        match flag_bit_of(trim(strip_suffix(rest, " set"@).unwrap())) {
            Ok(b) => Ok(ConditionShape::FlagSet(b)),
            Err(m) => Err(m),
        }
    } else if has_suffix(rest, " clear"@) {
        match flag_bit_of(trim(strip_suffix(rest, " clear"@).unwrap())) {
            Ok(b) => Ok(ConditionShape::FlagClear(b)),
            Err(m) => Err(m),
        }
    } else {
        Err(
            "invalid flag condition: '"@ + s
                + "'. Expected: flag z set, flag c clear, flag z becomes set, flag c becomes clear"@,
        )
    }
}

/// The result of parsing `ppu enters mode ...` with `rest` the text after it.
pub open spec fn ppu_condition_of(rest: Seq<char>) -> Result<ConditionShape, Seq<char>> {
    match parse_unsigned(trim(rest), 10, 255) {
        None => Err("invalid PPU mode: "@ + rest),
        Some(m) => if m > 3 {
            Err("PPU mode must be 0-3, got "@ + dec_text(m))
        } else {
            Ok(ConditionShape::PpuEntersMode(m as u8))
        },
    }
}

/// The result of parsing `interrupt ...` with `rest` the text after it.
pub open spec fn interrupt_condition_of(rest: Seq<char>) -> Result<ConditionShape, Seq<char>> {
    match parse_unsigned(trim(rest), 10, 255) {
        None => Err("invalid interrupt bit: "@ + rest),
        Some(b) => if b > 4 {
            Err("interrupt bit must be 0-4, got "@ + dec_text(b))
        } else {
            Ok(ConditionShape::InterruptFires(b as u8))
        },
    }
}

/// The result of parsing a bitmask condition `field & mask [= value]`
/// whose first `&` is at `amp`.
pub open spec fn bitmask_condition_of(s: Seq<char>, amp: int) -> Result<ConditionShape, Seq<char>> {
    let field = trim(s.take(amp));
    let rest = trim(s.skip(amp + 1));
    if field.len() == 0 {
        Err("invalid bitmask condition '"@ + s + "': field must be non-empty"@)
    } else if find_char(rest, '=') is Some {
        let eq = find_char(rest, '=').unwrap();
        let mask_str = trim(rest.take(eq));
        let value_str = trim(rest.skip(eq + 1));
        match number_of(mask_str) {
            None => Err("invalid mask in '"@ + s + "': '"@ + mask_str + "' is not a number"@),
            Some(mask) => match number_of(value_str) {
                None => Err(
                    "invalid value in '"@ + s + "': '"@ + value_str + "' is not a number"@,
                ),
                Some(value) => Ok(ConditionShape::FieldBitMaskEquals(field, mask as u64, value as u64)),
            },
        }
    } else {
        match number_of(rest) {
            None => Err("invalid mask in '"@ + s + "': '"@ + rest + "' is not a number"@),
            Some(mask) => Ok(ConditionShape::FieldBitMask(field, mask as u64)),
        }
    }
}

/// The result of parsing the forms that name a field: `field changes`,
/// `field changes to v`, `field changes from v`, `field & mask [= v]`,
/// `field=value`.
pub open spec fn field_condition_of(s: Seq<char>) -> Result<ConditionShape, Seq<char>> {
    if has_suffix(s, " changes"@) {
        Ok(ConditionShape::FieldChanges(trim(strip_suffix(s, " changes"@).unwrap())))
    } else if find(s, " changes to "@) is Some {
        let i = find(s, " changes to "@).unwrap();
        Ok(
            ConditionShape::FieldChangesTo(
                trim(s.take(i)),
                trim(s.skip(i + " changes to "@.len())),
            ),
        )
    } else if find(s, " changes from "@) is Some {
        let i = find(s, " changes from "@).unwrap();
        Ok(
            ConditionShape::FieldChangesFrom(
                trim(s.take(i)),
                trim(s.skip(i + " changes from "@.len())),
            ),
        )
    } else if find_char(s, '&') is Some {
        bitmask_condition_of(s, find_char(s, '&').unwrap())
    } else if find_char(s, '=') is Some {
        let eq = find_char(s, '=').unwrap();
        let field = trim(s.take(eq));
        let value = trim(s.skip(eq + 1));
        if field.len() == 0 || value.len() == 0 {
            Err("invalid condition '"@ + s + "': field and value must be non-empty"@)
        } else {
            Ok(ConditionShape::FieldEquals(field, value))
        }
    } else {
        Err("cannot parse condition: '"@ + s + "'"@)
    }
}

/// What `parse_condition` answers for a text: the shape of the condition,
/// or the error message.
pub open spec fn condition_of(s0: Seq<char>) -> Result<ConditionShape, Seq<char>> {
    let s = trim(s0);
    if has_prefix(s, "flag "@) {
        flag_condition_of(s, strip_prefix(s, "flag "@).unwrap())
    } else if has_prefix(s, "ppu enters mode "@) {
        ppu_condition_of(strip_prefix(s, "ppu enters mode "@).unwrap())
    } else if s == "lcd on"@ {
        Ok(ConditionShape::LcdTurnsOn)
    } else if s == "lcd off"@ {
        Ok(ConditionShape::LcdTurnsOff)
    } else if s == "timer overflow"@ {
        Ok(ConditionShape::TimerOverflow)
    } else if has_prefix(s, "interrupt "@) {
        interrupt_condition_of(strip_prefix(s, "interrupt "@).unwrap())
    } else {
        field_condition_of(s)
    }
}

/// Whether `r` is the answer `spec` describes.
pub open spec fn parsed_as(r: Result<Condition, String>, spec: Result<ConditionShape, Seq<char>>) -> bool {
    match r {
        Ok(c) => spec == Ok::<ConditionShape, Seq<char>>(c.shape()),
        Err(m) => spec == Err::<ConditionShape, Seq<char>>(m@),
    }
}

fn flag_condition(s: &Vec<char>, rest0: &Vec<char>) -> (r: Result<Condition, String>)
    ensures
        parsed_as(r, flag_condition_of(s@, rest0@)),
{
    let rest = trim_chars(rest0);
    if let Some(inner) = strip_suffix_chars(&rest, &chars_of(" becomes set")) {
        return match flag_bit(&trim_chars(&inner)) {
            Ok(b) => Ok(Condition::FlagBecomesSet(b)),
            Err(m) => Err(m),
        };
    }
    if let Some(inner) = strip_suffix_chars(&rest, &chars_of(" becomes clear")) {
        return match flag_bit(&trim_chars(&inner)) {
            Ok(b) => Ok(Condition::FlagBecomesClear(b)),
            Err(m) => Err(m),
        };
    }
    if let Some(inner) = strip_suffix_chars(&rest, &chars_of(" set")) {
        return match flag_bit(&trim_chars(&inner)) {
            Ok(b) => Ok(Condition::FlagSet(b)),
            Err(m) => Err(m),
        };
    }
    if let Some(inner) = strip_suffix_chars(&rest, &chars_of(" clear")) {
        return match flag_bit(&trim_chars(&inner)) {
            Ok(b) => Ok(Condition::FlagClear(b)),
            Err(m) => Err(m),
        };
    }
    Err(
        concat3(
            "invalid flag condition: '",
            s,
            "'. Expected: flag z set, flag c clear, flag z becomes set, flag c becomes clear",
        ),
    )
}

fn ppu_condition(rest: &Vec<char>) -> (r: Result<Condition, String>)
    ensures
        parsed_as(r, ppu_condition_of(rest@)),
{
    proof {
        reveal_strlit("");
    }
    match parse_unsigned_exec(&trim_chars(rest), 10, 255) {
        None => Err(concat3("invalid PPU mode: ", rest, "")),
        Some(m) => {
            if m > 3 {
                Err(concat3("PPU mode must be 0-3, got ", &dec_exec(m), ""))
            } else {
                Ok(Condition::PpuEntersMode(m as u8))
            }
        },
    }
}

fn interrupt_condition(rest: &Vec<char>) -> (r: Result<Condition, String>)
    ensures
        parsed_as(r, interrupt_condition_of(rest@)),
{
    proof {
        reveal_strlit("");
    }
    match parse_unsigned_exec(&trim_chars(rest), 10, 255) {
        None => Err(concat3("invalid interrupt bit: ", rest, "")),
        Some(b) => {
            if b > 4 {
                Err(concat3("interrupt bit must be 0-4, got ", &dec_exec(b), ""))
            } else {
                Ok(Condition::InterruptFires(b as u8))
            }
        },
    }
}

/// The characters `a`, then `b`, then `c`, then `d`, as one sequence.
fn join4(a: &str, b: &Vec<char>, c: &str, d: &Vec<char>) -> (r: Vec<char>)
    ensures
        r@ == a@ + b@ + c@ + d@,
{
    proof {
        reveal_strlit("");
    }
    let first = concat3(a, b, c);
    let rest = concat3("", d, "");
    let mut v = chars_of(first.as_str());
    let w = chars_of(rest.as_str());
    let ghost v0 = v@;
    let mut i: usize = 0;
    while i < w.len()
        invariant
            0 <= i <= w@.len(),
            v@ == v0 + w@.take(i as int),
        decreases w@.len() - i,
    {
        v.push(w[i]);
        i += 1;
        assert(v@ =~= v0 + w@.take(i as int));
    }
    assert(w@.take(i as int) =~= w@);
    assert(w@ =~= d@);
    v
}

fn bitmask_condition(s: &Vec<char>, amp: usize) -> (r: Result<Condition, String>)
    requires
        amp < s@.len(),
    ensures
        parsed_as(r, bitmask_condition_of(s@, amp as int)),
{
    proof {
        reveal_strlit("");
    }
    let n = s.len();
    let field = trim_chars(&slice_chars(s, 0, amp));
    let rest = trim_chars(&slice_chars(s, amp + 1, n));
    assert(s@.subrange(0, amp as int) =~= s@.take(amp as int));
    assert(s@.subrange(amp + 1, s@.len() as int) =~= s@.skip(amp + 1));
    if field.len() == 0 {
        return Err(concat3("invalid bitmask condition '", s, "': field must be non-empty"));
    }
    let rn = rest.len();
    match find_char_exec(&rest, '=') {
        Some(eq) => {
            proof {
                crate::text::lemma_find_char_bound(rest@, '=');
            }
            assert(eq < rn);
            let mask_str = trim_chars(&slice_chars(&rest, 0, eq));
            let value_str = trim_chars(&slice_chars(&rest, eq + 1, rn));
            assert(rest@.subrange(0, eq as int) =~= rest@.take(eq as int));
            assert(rest@.subrange(eq + 1, rest@.len() as int) =~= rest@.skip(eq + 1));
            match parse_number_chars(&mask_str) {
                None => {
                    let m = concat3(
                        "",
                        &join4("invalid mask in '", s, "': '", &mask_str),
                        "' is not a number",
                    );
                    assert(m@ =~= "invalid mask in '"@ + s@ + "': '"@ + mask_str@
                        + "' is not a number"@);
                    Err(m)
                },
                Some(mask) => match parse_number_chars(&value_str) {
                    None => {
                        let m = concat3(
                            "",
                            &join4("invalid value in '", s, "': '", &value_str),
                            "' is not a number",
                        );
                        assert(m@ =~= "invalid value in '"@ + s@ + "': '"@ + value_str@
                            + "' is not a number"@);
                        Err(m)
                    },
                    Some(value) => Ok(
                        Condition::FieldBitMaskEquals { field: string_of(&field), mask, value },
                    ),
                },
            }
        },
        None => match parse_number_chars(&rest) {
            None => {
                let m = concat3(
                    "",
                    &join4("invalid mask in '", s, "': '", &rest),
                    "' is not a number",
                );
                assert(m@ =~= "invalid mask in '"@ + s@ + "': '"@ + rest@ + "' is not a number"@);
                Err(m)
            },
            Some(mask) => Ok(Condition::FieldBitMask { field: string_of(&field), mask }),
        },
    }
}

fn field_condition(s: &Vec<char>) -> (r: Result<Condition, String>)
    ensures
        parsed_as(r, field_condition_of(s@)),
{
    proof {
        reveal_strlit("");
    }
    if let Some(rest) = strip_suffix_chars(s, &chars_of(" changes")) {
        return Ok(Condition::FieldChanges { field: string_of(&trim_chars(&rest)) });
    }
    let n = s.len();
    let to = chars_of(" changes to ");
    if let Some(i) = find_chars(s, &to) {
        proof {
            crate::text::lemma_find_bound(s@, to@);
        }
        let field = trim_chars(&slice_chars(s, 0, i));
        let value = trim_chars(&slice_chars(s, i + to.len(), s.len()));
        assert(s@.subrange(0, i as int) =~= s@.take(i as int));
        assert(s@.subrange(i + to@.len(), s@.len() as int) =~= s@.skip(i + to@.len()));
        return Ok(Condition::FieldChangesTo { field: string_of(&field), value: string_of(&value) });
    }
    let from = chars_of(" changes from ");
    if let Some(i) = find_chars(s, &from) {
        proof {
            crate::text::lemma_find_bound(s@, from@);
        }
        let field = trim_chars(&slice_chars(s, 0, i));
        let value = trim_chars(&slice_chars(s, i + from.len(), s.len()));
        assert(s@.subrange(0, i as int) =~= s@.take(i as int));
        assert(s@.subrange(i + from@.len(), s@.len() as int) =~= s@.skip(i + from@.len()));
        return Ok(
            Condition::FieldChangesFrom { field: string_of(&field), value: string_of(&value) },
        );
    }
    if let Some(amp) = find_char_exec(s, '&') {
        proof {
            crate::text::lemma_find_char_bound(s@, '&');
        }
        return bitmask_condition(s, amp);
    }
    if let Some(eq) = find_char_exec(s, '=') {
        proof {
            crate::text::lemma_find_char_bound(s@, '=');
        }
        let field = trim_chars(&slice_chars(s, 0, eq));
        let value = trim_chars(&slice_chars(s, eq + 1, s.len()));
        assert(s@.subrange(0, eq as int) =~= s@.take(eq as int));
        assert(s@.subrange(eq + 1, s@.len() as int) =~= s@.skip(eq + 1));
        if field.len() == 0 || value.len() == 0 {
            return Err(concat3("invalid condition '", s, "': field and value must be non-empty"));
        }
        return Ok(Condition::FieldEquals { field: string_of(&field), value: string_of(&value) });
    }
    Err(concat3("cannot parse condition: '", s, "'"))
}

/// Parse a condition from a human-readable string.
///
/// Supported formats: `field=value`, `field changes`, `field changes to
/// value`, `field changes from value`, `field & mask`, `field & mask =
/// value`, `ppu enters mode N`, `lcd on`, `lcd off`, `timer overflow`,
/// `interrupt N`, `flag F set`, `flag F clear`, `flag F becomes set`,
/// `flag F becomes clear`.
pub fn parse_condition(s: &str) -> (r: Result<Condition, String>)
    ensures
        parsed_as(r, condition_of(s@)),
{
    let t = trim_chars(&chars_of(s));
    if let Some(rest) = strip_prefix_chars(&t, &chars_of("flag ")) {
        return flag_condition(&t, &rest);
    }
    if let Some(rest) = strip_prefix_chars(&t, &chars_of("ppu enters mode ")) {
        return ppu_condition(&rest);
    }
    if is_word(&t, "lcd on") {
        return Ok(Condition::LcdTurnsOn);
    }
    if is_word(&t, "lcd off") {
        return Ok(Condition::LcdTurnsOff);
    }
    if is_word(&t, "timer overflow") {
        return Ok(Condition::TimerOverflow);
    }
    if let Some(rest) = strip_prefix_chars(&t, &chars_of("interrupt ")) {
        return interrupt_condition(&rest);
    }
    field_condition(&t)
}


// ---------------------------------------------------------------------------
// Bit numbers
// ---------------------------------------------------------------------------

/// Whether the bit numbers of a condition that is not compound name bits
/// of a byte.
pub open spec fn shape_bits_ok(s: ConditionShape) -> bool {
    match s {
        ConditionShape::InterruptFires(b) => b < 8,
        ConditionShape::FlagSet(b) => b < 8,
        ConditionShape::FlagClear(b) => b < 8,
        ConditionShape::FlagBecomesSet(b) => b < 8,
        ConditionShape::FlagBecomesClear(b) => b < 8,
        _ => true,
    }
}

/// Whether every bit number in a condition names a bit of a byte.
pub open spec fn bits_ok(c: Condition) -> bool
    decreases c, 1int,
{
    match c {
        Condition::All(cs) => all_bits_ok(cs@),
        Condition::Any(cs) => all_bits_ok(cs@),
        _ => shape_bits_ok(c.shape()),
    }
}

/// Whether every bit number in the conditions names a bit of a byte.
pub open spec fn all_bits_ok(cs: Seq<Condition>) -> bool
    decreases cs, 0int,
{
    if cs.len() == 0 {
        true
    } else {
        all_bits_ok(cs.drop_last()) && bits_ok(cs.last())
    }
}

/// A parsed condition is never compound and names bits of a byte.
pub proof fn lemma_parsed_shape(s: Seq<char>)
    ensures
        condition_of(s) matches Ok(shape) ==> shape_bits_ok(shape) && !(shape is All) && !(
        shape is Any),
{
}


// ---------------------------------------------------------------------------
// Evaluation against trace entries
// ---------------------------------------------------------------------------

/// A field's value in an entry.
pub open spec fn entry_get(e: Map<Seq<char>, FieldValueView>, f: Seq<char>) -> Option<FieldValueView> {
    if e.contains_key(f) {
        Some(e[f])
    } else {
        None
    }
}

/// The text a value shows when compared as text.
pub open spec fn raw_text(v: FieldValueView) -> Seq<char> {
    match v {
        FieldValueView::Text(s) => s,
        FieldValueView::Number(n) => dec_text(n as nat),
        FieldValueView::OtherNumber(t) => t,
        FieldValueView::Bool(b) => if b {
            "true"@
        } else {
            "false"@
        },
        FieldValueView::Null => "null"@,
        FieldValueView::Other(j) => j,
    }
}

/// Whether a field's value matches a value text: numbers compare with the
/// text read as a number, other values with their text.
pub open spec fn matches_value(e: Map<Seq<char>, FieldValueView>, field: Seq<char>, value: Seq<char>) -> bool {
    match entry_get(e, field) {
        Some(FieldValueView::Number(n)) => number_of(value) == Some(n as nat),
        Some(FieldValueView::OtherNumber(_)) => false,
        Some(v) => raw_text(v) == value,
        None => false,
    }
}

/// A field's value in an entry read as a byte.
pub open spec fn entry_u8(e: Map<Seq<char>, FieldValueView>, f: Seq<char>) -> Option<u8> {
    match entry_get(e, f) {
        Some(v) => value_u8(v),
        None => None,
    }
}

/// A field's value in the previous entry, if there is one, read as a byte.
pub open spec fn prev_u8(p: Option<Map<Seq<char>, FieldValueView>>, f: Seq<char>) -> Option<u8> {
    match p {
        Some(m) => entry_u8(m, f),
        None => None,
    }
}

/// Whether bit `bit` of `field` went from `from` to `to` since the
/// previous entry.
pub open spec fn entry_bit_transition(
    e: Map<Seq<char>, FieldValueView>,
    p: Option<Map<Seq<char>, FieldValueView>>,
    field: Seq<char>,
    bit: u8,
    from: bool,
    to: bool,
) -> bool {
    match (entry_u8(e, field), prev_u8(p, field)) {
        (Some(c), Some(q)) => bit_of(q, bit) == from && bit_of(c, bit) == to,
        _ => false,
    }
}

/// The low two bits of a byte, when there is one.
pub open spec fn low_bits(v: Option<u8>) -> Option<u8> {
    match v {
        Some(x) => Some(x & 3u8),
        None => None,
    }
}

/// Whether a condition that is not compound holds of an entry, given the
/// previous entry.
pub open spec fn entry_eval_shape(
    s: ConditionShape,
    e: Map<Seq<char>, FieldValueView>,
    p: Option<Map<Seq<char>, FieldValueView>>,
) -> bool {
    match s {
        ConditionShape::FieldEquals(field, value) => matches_value(e, field, value),
        ConditionShape::FieldChanges(field) => match entry_get(e, field) {
            None => false,
            Some(v) => match p {
                None => true,
                Some(m) => match entry_get(m, field) {
                    None => true,
                    Some(w) => raw_text(v) != raw_text(w),
                },
            },
        },
        ConditionShape::FieldChangesTo(field, value) => matches_value(e, field, value) && (match p {
            None => true,
            Some(m) => !matches_value(m, field, value),
        }),
        ConditionShape::FieldChangesFrom(field, value) => (match p {
            None => false,
            Some(m) => matches_value(m, field, value),
        }) && !matches_value(e, field, value),
        ConditionShape::PpuEntersMode(mode) => low_bits(entry_u8(e, "stat"@)) == Some(mode) && low_bits(
            prev_u8(p, "stat"@),
        ) != Some(mode),
        ConditionShape::LcdTurnsOn => entry_bit_transition(e, p, "lcdc"@, 7, false, true),
        ConditionShape::LcdTurnsOff => entry_bit_transition(e, p, "lcdc"@, 7, true, false),
        ConditionShape::TimerOverflow => match (entry_u8(e, "tima"@), prev_u8(p, "tima"@)) {
            (Some(c), Some(q)) => c < q && q > 0x80,
            _ => false,
        },
        ConditionShape::InterruptFires(bit) => entry_bit_transition(e, p, "if_"@, bit, false, true),
        ConditionShape::FlagSet(bit) => match entry_u8(e, "f"@) {
            Some(f) => (f >> bit) & 1u8 == 1u8,
            None => false,
        },
        ConditionShape::FlagClear(bit) => match entry_u8(e, "f"@) {
            Some(f) => (f >> bit) & 1u8 == 0u8,
            None => false,
        },
        ConditionShape::FlagBecomesSet(bit) => entry_bit_transition(e, p, "f"@, bit, false, true),
        ConditionShape::FlagBecomesClear(bit) => entry_bit_transition(e, p, "f"@, bit, true, false),
        ConditionShape::FieldBitMask(field, mask) => match entry_get(e, field) {
            Some(v) => match value_u64(v) {
                Some(n) => n & mask != 0,
                None => false,
            },
            None => false,
        },
        ConditionShape::FieldBitMaskEquals(field, mask, value) => match entry_get(e, field) {
            Some(v) => match value_u64(v) {
                Some(n) => n & mask == value,
                None => false,
            },
            None => false,
        },
        ConditionShape::All => false,
        ConditionShape::Any => false,
    }
}

/// Whether a condition holds of an entry, given the previous entry.
pub open spec fn entry_eval(c: Condition, e: Map<Seq<char>, FieldValueView>, p: Option<Map<Seq<char>, FieldValueView>>) -> bool
    decreases c, 1int,
{
    match c {
        Condition::All(cs) => entry_all(cs@, e, p),
        Condition::Any(cs) => entry_any(cs@, e, p),
        _ => entry_eval_shape(c.shape(), e, p),
    }
}

/// Whether every condition holds of an entry.
pub open spec fn entry_all(cs: Seq<Condition>, e: Map<Seq<char>, FieldValueView>, p: Option<Map<Seq<char>, FieldValueView>>) -> bool
    decreases cs, 0int,
{
    if cs.len() == 0 {
        true
    } else {
        entry_all(cs.drop_last(), e, p) && entry_eval(cs.last(), e, p)
    }
}

/// Whether some condition holds of an entry.
pub open spec fn entry_any(cs: Seq<Condition>, e: Map<Seq<char>, FieldValueView>, p: Option<Map<Seq<char>, FieldValueView>>) -> bool
    decreases cs, 0int,
{
    if cs.len() == 0 {
        false
    } else {
        entry_any(cs.drop_last(), e, p) || entry_eval(cs.last(), e, p)
    }
}

/// Whether the bit number of a condition that is not compound names a bit
/// of a byte wherever its evaluation on an entry shifts by it: a flag test
/// shifts when the entry has `f`, a transition when both entries have the
/// field.
pub open spec fn entry_shape_shifts_ok(
    s: ConditionShape,
    e: Map<Seq<char>, FieldValueView>,
    p: Option<Map<Seq<char>, FieldValueView>>,
) -> bool {
    match s {
        ConditionShape::FlagSet(b) => entry_u8(e, "f"@) is Some ==> b < 8,
        ConditionShape::FlagClear(b) => entry_u8(e, "f"@) is Some ==> b < 8,
        ConditionShape::FlagBecomesSet(b) => (entry_u8(e, "f"@) is Some && prev_u8(p, "f"@) is Some) ==> b < 8,
        ConditionShape::FlagBecomesClear(b) => (entry_u8(e, "f"@) is Some && prev_u8(p, "f"@) is Some) ==> b < 8,
        ConditionShape::InterruptFires(b) => (entry_u8(e, "if_"@) is Some && prev_u8(p, "if_"@) is Some) ==> b < 8,
        _ => true,
    }
}

/// Whether every shift the evaluation of a condition on an entry runs is
/// by less than 8: the members of `All` are evaluated up to the first that
/// fails, those of `Any` up to the first that holds.
pub open spec fn entry_shifts_ok(c: Condition, e: Map<Seq<char>, FieldValueView>, p: Option<Map<Seq<char>, FieldValueView>>) -> bool
    decreases c, 1int,
{
    match c {
        Condition::All(cs) => entry_all_shifts_ok(cs@, e, p),
        Condition::Any(cs) => entry_any_shifts_ok(cs@, e, p),
        _ => entry_shape_shifts_ok(c.shape(), e, p),
    }
}

/// Whether the shifts of `All` over the conditions are by less than 8.
pub open spec fn entry_all_shifts_ok(
    cs: Seq<Condition>,
    e: Map<Seq<char>, FieldValueView>,
    p: Option<Map<Seq<char>, FieldValueView>>,
) -> bool
    decreases cs, 0int,
{
    if cs.len() == 0 {
        true
    } else {
        entry_all_shifts_ok(cs.drop_last(), e, p) && (entry_all(cs.drop_last(), e, p) ==> entry_shifts_ok(
            cs.last(),
            e,
            p,
        ))
    }
}

/// Whether the shifts of `Any` over the conditions are by less than 8.
pub open spec fn entry_any_shifts_ok(
    cs: Seq<Condition>,
    e: Map<Seq<char>, FieldValueView>,
    p: Option<Map<Seq<char>, FieldValueView>>,
) -> bool
    decreases cs, 0int,
{
    if cs.len() == 0 {
        true
    } else {
        entry_any_shifts_ok(cs.drop_last(), e, p) && (!entry_any(cs.drop_last(), e, p) ==> entry_shifts_ok(
            cs.last(),
            e,
            p,
        ))
    }
}

proof fn lemma_entry_all_shifts_take(
    cs: Seq<Condition>,
    k: int,
    e: Map<Seq<char>, FieldValueView>,
    p: Option<Map<Seq<char>, FieldValueView>>,
)
    requires
        0 <= k <= cs.len(),
        entry_all_shifts_ok(cs, e, p),
    ensures
        entry_all_shifts_ok(cs.take(k), e, p),
    decreases cs.len(),
{
    if k == cs.len() {
        assert(cs.take(k) =~= cs);
    } else {
        lemma_entry_all_shifts_take(cs.drop_last(), k, e, p);
        assert(cs.drop_last().take(k) =~= cs.take(k));
    }
}

proof fn lemma_entry_any_shifts_take(
    cs: Seq<Condition>,
    k: int,
    e: Map<Seq<char>, FieldValueView>,
    p: Option<Map<Seq<char>, FieldValueView>>,
)
    requires
        0 <= k <= cs.len(),
        entry_any_shifts_ok(cs, e, p),
    ensures
        entry_any_shifts_ok(cs.take(k), e, p),
    decreases cs.len(),
{
    if k == cs.len() {
        assert(cs.take(k) =~= cs);
    } else {
        lemma_entry_any_shifts_take(cs.drop_last(), k, e, p);
        assert(cs.drop_last().take(k) =~= cs.take(k));
    }
}

/// The previous entry's value, if there is one.
pub open spec fn opt_entry(p: Option<&TraceEntry>) -> Option<Map<Seq<char>, FieldValueView>> {
    match p {
        Some(t) => Some(t@),
        None => None,
    }
}

fn entry_field_str_raw(v: &FieldValue) -> (r: Vec<char>)
    ensures
        r@ == raw_text(v@),
{
    match v {
        FieldValue::Text(s) => chars_of(s.as_str()),
        FieldValue::Number(n) => dec_exec(*n),
        FieldValue::OtherNumber(t) => chars_of(t.as_str()),
        FieldValue::Bool(b) => if *b {
            chars_of("true")
        } else {
            chars_of("false")
        },
        FieldValue::Null => chars_of("null"),
        FieldValue::Other(j) => chars_of(j.as_str()),
    }
}

fn field_matches_value(e: &TraceEntry, field: &str, value: &str) -> (r: bool)
    ensures
        r == matches_value(e@, field@, value@),
{
    match e.get(field) {
        Some(FieldValue::Number(n)) => match parse_number(value) {
            Some(t) => *n == t,
            None => false,
        },
        Some(FieldValue::OtherNumber(_)) => false,
        Some(v) => chars_eq(&entry_field_str_raw(v), &chars_of(value)),
        None => false,
    }
}

fn prev_u8_exec(p: Option<&TraceEntry>, f: &str) -> (r: Option<u8>)
    ensures
        r == prev_u8(opt_entry(p), f@),
{
    match p {
        Some(t) => t.get_u8(f),
        None => None,
    }
}

fn bit_transitions(e: &TraceEntry, p: Option<&TraceEntry>, field: &str, bit: u8, from: bool, to: bool) -> (r: bool)
    requires
        (entry_u8(e@, field@) is Some && prev_u8(opt_entry(p), field@) is Some) ==> bit < 8,
    ensures
        r == entry_bit_transition(e@, opt_entry(p), field@, bit, from, to),
{
    match (e.get_u8(field), prev_u8_exec(p, field)) {
        (Some(c), Some(q)) => {
            let cur_bit = (c >> bit) & 1 == 1;
            let prv_bit = (q >> bit) & 1 == 1;
            prv_bit == from && cur_bit == to
        },
        _ => false,
    }
}

/// Evaluate a condition against an entry, given the previous entry.
pub fn eval_condition(cond: &Condition, entry: &TraceEntry, prev: Option<&TraceEntry>) -> (r: bool)
    requires
        entry_shifts_ok(*cond, entry@, opt_entry(prev)),
    ensures
        r == entry_eval(*cond, entry@, opt_entry(prev)),
    decreases cond, 1int,
{
    match cond {
        Condition::FieldEquals { field, value } => field_matches_value(entry, field.as_str(), value.as_str()),
        Condition::FieldChanges { field } => match entry.get(field.as_str()) {
            None => false,
            Some(v) => match prev {
                None => true,
                Some(pe) => match pe.get(field.as_str()) {
                    None => true,
                    Some(w) => !chars_eq(&entry_field_str_raw(v), &entry_field_str_raw(w)),
                },
            },
        },
        Condition::FieldChangesTo { field, value } => {
            field_matches_value(entry, field.as_str(), value.as_str()) && match prev {
                None => true,
                Some(pe) => !field_matches_value(pe, field.as_str(), value.as_str()),
            }
        },
        Condition::FieldChangesFrom { field, value } => {
            (match prev {
                None => false,
                Some(pe) => field_matches_value(pe, field.as_str(), value.as_str()),
            }) && !field_matches_value(entry, field.as_str(), value.as_str())
        },
        Condition::PpuEntersMode(mode) => {
            let cur = match entry.get_u8("stat") {
                Some(x) => Some(x & 3),
                None => None,
            };
            let prv = match prev_u8_exec(prev, "stat") {
                Some(x) => Some(x & 3),
                None => None,
            };
            cur == Some(*mode) && prv != Some(*mode)
        },
        Condition::LcdTurnsOn => bit_transitions(entry, prev, "lcdc", 7, false, true),
        Condition::LcdTurnsOff => bit_transitions(entry, prev, "lcdc", 7, true, false),
        Condition::TimerOverflow => match (entry.get_u8("tima"), prev_u8_exec(prev, "tima")) {
            (Some(c), Some(q)) => c < q && q > 0x80,
            _ => false,
        },
        Condition::InterruptFires(bit) => bit_transitions(entry, prev, "if_", *bit, false, true),
        Condition::FlagSet(bit) => match entry.get_u8("f") {
            Some(f) => (f >> *bit) & 1 == 1,
            None => false,
        },
        Condition::FlagClear(bit) => match entry.get_u8("f") {
            Some(f) => (f >> *bit) & 1 == 0,
            None => false,
        },
        Condition::FlagBecomesSet(bit) => bit_transitions(entry, prev, "f", *bit, false, true),
        Condition::FlagBecomesClear(bit) => bit_transitions(entry, prev, "f", *bit, true, false),
        Condition::FieldBitMask { field, mask } => match entry.get(field.as_str()) {
            Some(FieldValue::Number(n)) => (*n & *mask) != 0,
            _ => false,
        },
        Condition::FieldBitMaskEquals { field, mask, value } => match entry.get(field.as_str()) {
            Some(FieldValue::Number(n)) => (*n & *mask) == *value,
            _ => false,
        },
        Condition::All(cs) => eval_all(cs, entry, prev),
        Condition::Any(cs) => eval_any(cs, entry, prev),
    }
}

fn eval_all(cs: &Vec<Condition>, entry: &TraceEntry, prev: Option<&TraceEntry>) -> (r: bool)
    requires
        entry_all_shifts_ok(cs@, entry@, opt_entry(prev)),
    ensures
        r == entry_all(cs@, entry@, opt_entry(prev)),
    decreases cs, 0int,
{
    let mut i: usize = 0;
    while i < cs.len()
        invariant
            i <= cs@.len(),
            entry_all_shifts_ok(cs@, entry@, opt_entry(prev)),
            entry_all(cs@.take(i as int), entry@, opt_entry(prev)),
        decreases cs@.len() - i,
    {
        proof {
            assert(decreases_to!(*cs => cs@));
            assert(decreases_to!(cs@ => cs@[i as int]));
            assert(cs@.take(i + 1).drop_last() =~= cs@.take(i as int));
            lemma_entry_all_shifts_take(cs@, i + 1, entry@, opt_entry(prev));
            assert(cs@.take(i + 1).last() == cs@[i as int]);
        }
        if !eval_condition(&cs[i], entry, prev) {
            proof {
                lemma_entry_all_prefix(cs@, i + 1, entry@, opt_entry(prev));
            }
            return false;
        }
        i += 1;
    }
    assert(cs@.take(i as int) =~= cs@);
    true
}

fn eval_any(cs: &Vec<Condition>, entry: &TraceEntry, prev: Option<&TraceEntry>) -> (r: bool)
    requires
        entry_any_shifts_ok(cs@, entry@, opt_entry(prev)),
    ensures
        r == entry_any(cs@, entry@, opt_entry(prev)),
    decreases cs, 0int,
{
    let mut i: usize = 0;
    while i < cs.len()
        invariant
            i <= cs@.len(),
            entry_any_shifts_ok(cs@, entry@, opt_entry(prev)),
            !entry_any(cs@.take(i as int), entry@, opt_entry(prev)),
        decreases cs@.len() - i,
    {
        proof {
            assert(decreases_to!(*cs => cs@));
            assert(decreases_to!(cs@ => cs@[i as int]));
            assert(cs@.take(i + 1).drop_last() =~= cs@.take(i as int));
            lemma_entry_any_shifts_take(cs@, i + 1, entry@, opt_entry(prev));
            assert(cs@.take(i + 1).last() == cs@[i as int]);
        }
        if eval_condition(&cs[i], entry, prev) {
            proof {
                lemma_entry_any_prefix(cs@, i + 1, entry@, opt_entry(prev));
            }
            return true;
        }
        i += 1;
    }
    assert(cs@.take(i as int) =~= cs@);
    false
}

proof fn lemma_entry_all_prefix(
    cs: Seq<Condition>,
    k: int,
    e: Map<Seq<char>, FieldValueView>,
    p: Option<Map<Seq<char>, FieldValueView>>,
)
    requires
        0 <= k <= cs.len(),
        !entry_all(cs.take(k), e, p),
    ensures
        !entry_all(cs, e, p),
    decreases cs.len() - k,
{
    if k < cs.len() {
        assert(cs.take(k + 1).drop_last() =~= cs.take(k));
        lemma_entry_all_prefix(cs, k + 1, e, p);
    } else {
        assert(cs.take(k) =~= cs);
    }
}

proof fn lemma_entry_any_prefix(
    cs: Seq<Condition>,
    k: int,
    e: Map<Seq<char>, FieldValueView>,
    p: Option<Map<Seq<char>, FieldValueView>>,
)
    requires
        0 <= k <= cs.len(),
        entry_any(cs.take(k), e, p),
    ensures
        entry_any(cs, e, p),
    decreases cs.len() - k,
{
    if k < cs.len() {
        assert(cs.take(k + 1).drop_last() =~= cs.take(k));
        lemma_entry_any_prefix(cs, k + 1, e, p);
    } else {
        assert(cs.take(k) =~= cs);
    }
}


/// An entry enters PPU mode `m` exactly when the mode in its STAT value
/// (bits 0-1, the value modulo 4) is `m` and the mode in the previous
/// entry's STAT value, if there is one, is not: bits 2-7 play no part.
pub proof fn law_entry_ppu_enters_mode(
    m: u8,
    e: Map<Seq<char>, FieldValueView>,
    p: Option<Map<Seq<char>, FieldValueView>>,
)
    ensures
        entry_eval(Condition::PpuEntersMode(m), e, p) <==> ((entry_u8(e, "stat"@) matches Some(s) && s % 4 == m)
            && !(prev_u8(p, "stat"@) matches Some(q) && q % 4 == m)),
{
    if let Some(s) = entry_u8(e, "stat"@) {
        assert(s & 3u8 == s % 4) by (bit_vector);
    }
    if let Some(q) = prev_u8(p, "stat"@) {
        assert(q & 3u8 == q % 4) by (bit_vector);
    }
}

/// A condition that needs no previous entry holds of an entry whatever
/// the previous entry is, and its evaluation runs the same shifts:
/// `is_stateful` is false exactly for conditions whose evaluation ignores
/// the previous entry.
pub proof fn law_stateless_ignores_previous(
    c: Condition,
    e: Map<Seq<char>, FieldValueView>,
    p1: Option<Map<Seq<char>, FieldValueView>>,
    p2: Option<Map<Seq<char>, FieldValueView>>,
)
    requires
        !stateful(c),
    ensures
        entry_eval(c, e, p1) == entry_eval(c, e, p2),
        entry_shifts_ok(c, e, p1) == entry_shifts_ok(c, e, p2),
    decreases c, 1int,
{
    match c {
        Condition::All(cs) => {
            assert(decreases_to!(c => cs));
            lemma_stateless_list(cs@, e, p1, p2);
        },
        Condition::Any(cs) => {
            assert(decreases_to!(c => cs));
            lemma_stateless_list(cs@, e, p1, p2);
        },
        _ => {},
    }
}

proof fn lemma_stateless_list(
    cs: Seq<Condition>,
    e: Map<Seq<char>, FieldValueView>,
    p1: Option<Map<Seq<char>, FieldValueView>>,
    p2: Option<Map<Seq<char>, FieldValueView>>,
)
    requires
        !any_stateful(cs),
    ensures
        entry_all(cs, e, p1) == entry_all(cs, e, p2),
        entry_any(cs, e, p1) == entry_any(cs, e, p2),
        entry_all_shifts_ok(cs, e, p1) == entry_all_shifts_ok(cs, e, p2),
        entry_any_shifts_ok(cs, e, p1) == entry_any_shifts_ok(cs, e, p2),
    decreases cs, 0int,
{
    if cs.len() > 0 {
        assert(decreases_to!(cs => cs.last()));
        lemma_stateless_list(cs.drop_last(), e, p1, p2);
        law_stateless_ignores_previous(cs.last(), e, p1, p2);
    }
}

/// Evaluates a condition against a stream of trace entries, keeping the
/// previous entry for conditions on transitions.
pub struct ConditionEvaluator {
    condition: Condition,
    prev: Option<TraceEntry>,
}

impl ConditionEvaluator {
    /// The condition evaluated.
    pub closed spec fn condition(&self) -> Condition {
        self.condition
    }

    /// The entry seen last, if any.
    pub closed spec fn previous(&self) -> Option<Map<Seq<char>, FieldValueView>> {
        match self.prev {
            Some(t) => Some(t@),
            None => None,
        }
    }

    pub fn new(condition: Condition) -> (r: Self)
        ensures
            r.condition() == condition,
            r.previous() is None,
    {
        ConditionEvaluator { condition, prev: None }
    }

    /// Whether the entry matches, given the entry seen before it; call it
    /// for each entry in order.
    pub fn evaluate(&mut self, entry: &TraceEntry) -> (r: bool)
        requires
            entry_shifts_ok(old(self).condition(), entry@, old(self).previous()),
        ensures
            r == entry_eval(old(self).condition(), entry@, old(self).previous()),
            final(self).condition() == old(self).condition(),
            final(self).previous() == Some(entry@),
    {
        let result = match &self.prev {
            Some(p) => eval_condition(&self.condition, entry, Some(p)),
            None => eval_condition(&self.condition, entry, None),
        };
        self.prev = Some(entry.duplicate());
        result
    }

    /// Forget the previous entry (e.g. when starting a new trace).
    pub fn reset(&mut self)
        ensures
            final(self).condition() == old(self).condition(),
            final(self).previous() is None,
    {
        self.prev = None;
    }
}


/// Parsing a list of condition texts in order: the shapes, or the first
/// error.
pub open spec fn all_parsed(parts: Seq<Seq<char>>, n: int) -> Result<Seq<ConditionShape>, Seq<char>>
    decreases n,
{
    if n <= 0 {
        Ok(Seq::empty())
    } else {
        match all_parsed(parts, n - 1) {
            Err(m) => Err(m),
            Ok(v) => match condition_of(parts[n - 1]) {
                Err(m) => Err(m),
                Ok(c) => Ok(v.push(c)),
            },
        }
    }
}

/// Whether `c` is what parsing the condition texts gives: the one
/// condition when there is one, else all of them together.
pub open spec fn combined_as(c: Condition, shapes: Seq<ConditionShape>) -> bool {
    if shapes.len() == 1 {
        c.shape() == shapes[0]
    } else {
        match c {
            Condition::All(cs) => cs@.len() == shapes.len() && forall|i: int|
                0 <= i < shapes.len() ==> (#[trigger] cs@[i]).shape() == shapes[i],
            _ => false,
        }
    }
}

/// Parse several condition texts: one gives its condition, several (or
/// none) give a condition that needs all of them.
pub fn parse_cli_conditions(parts: &Vec<String>) -> (r: Result<Condition, String>)
    ensures
        match r {
            Ok(c) => all_parsed(crate::header::string_texts(parts@), parts@.len() as int) matches Ok(v)
                && combined_as(c, v) && bits_ok(c),
            Err(m) => all_parsed(crate::header::string_texts(parts@), parts@.len() as int) == Err::<
                Seq<ConditionShape>,
                Seq<char>,
            >(m@),
        },
{
    let ghost texts = crate::header::string_texts(parts@);
    let mut conditions: Vec<Condition> = Vec::new();
    let mut i: usize = 0;
    while i < parts.len()
        invariant
            i <= parts@.len(),
            texts == crate::header::string_texts(parts@),
            all_parsed(texts, i as int) matches Ok(v) && conditions@.len() == v.len() && forall|k: int|
                0 <= k < v.len() ==> (#[trigger] conditions@[k]).shape() == v[k] && bits_ok(conditions@[k])
                    && !(v[k] is All) && !(v[k] is Any),
        decreases parts@.len() - i,
    {
        proof {
            lemma_parsed_shape(texts[i as int]);
        }
        assert(texts[i as int] == parts@[i as int]@);
        match parse_condition(parts[i].as_str()) {
            Ok(c) => {
                conditions.push(c);
            },
            Err(m) => {
                assert(all_parsed(texts, i + 1) == Err::<Seq<ConditionShape>, Seq<char>>(m@));
                proof {
                    lemma_all_parsed_err(texts, i + 1, parts@.len() as int);
                }
                return Err(m);
            },
        }
        i += 1;
    }
    if conditions.len() == 1 {
        let c = conditions.pop().unwrap();
        Ok(c)
    } else {
        let ghost cs = conditions@;
        proof {
            assert forall|k: int| 0 <= k < cs.len() implies bits_ok(#[trigger] cs[k]) by {}
            lemma_all_bits_of(cs);
        }
        Ok(Condition::All(conditions))
    }
}

proof fn lemma_all_parsed_err(parts: Seq<Seq<char>>, n: int, m: int)
    requires
        n <= m,
        all_parsed(parts, n) is Err,
    ensures
        all_parsed(parts, m) == all_parsed(parts, n),
    decreases m - n,
{
    if m > n {
        lemma_all_parsed_err(parts, n, m - 1);
    }
}

proof fn lemma_all_bits_of(cs: Seq<Condition>)
    requires
        forall|k: int| 0 <= k < cs.len() ==> bits_ok(#[trigger] cs[k]),
    ensures
        all_bits_ok(cs),
    decreases cs.len(),
{
    if cs.len() > 0 {
        lemma_all_bits_of(cs.drop_last());
    }
}

} // verus!
