//! A single trace entry: one row of emulator state, as a map from field
//! name to value. The `cy` field holds the cycle count; register fields
//! hold numbers (older traces wrote them as hex strings like `"0x0F"`).
use vstd::prelude::*;

use crate::query::without_hex_prefix;
use crate::text::{
    chars_of, parse_unsigned, parse_unsigned_exec, slice_chars, str_eq, string_of, strip_prefix_chars, upper_hex_exec,
    upper_hex_text,
};

verus! {

// ---------------------------------------------------------------------------
// Values
// ---------------------------------------------------------------------------

/// A field value of a trace entry, as its JSON form gives it.
#[derive(Debug, Clone)]
pub enum FieldValue {
    Null,
    Bool(bool),
    /// A number that fits in a `u64`.
    Number(u64),
    /// Any other number (negative or fractional), as its JSON text.
    OtherNumber(String),
    Text(String),
    /// An array or object, as its JSON text.
    Other(String),
}

/// The value of a [`FieldValue`].
pub enum FieldValueView {
    Null,
    Bool(bool),
    Number(u64),
    OtherNumber(Seq<char>),
    Text(Seq<char>),
    Other(Seq<char>),
}

impl View for FieldValue {
    type V = FieldValueView;

    open spec fn view(&self) -> FieldValueView {
        match self {
            FieldValue::Null => FieldValueView::Null,
            FieldValue::Bool(b) => FieldValueView::Bool(*b),
            FieldValue::Number(n) => FieldValueView::Number(*n),
            FieldValue::OtherNumber(s) => FieldValueView::OtherNumber(s@),
            FieldValue::Text(s) => FieldValueView::Text(s@),
            FieldValue::Other(s) => FieldValueView::Other(s@),
        }
    }
}

impl FieldValue {
    /// A copy with the same value.
    pub fn duplicate(&self) -> (r: FieldValue)
        ensures
            r@ == self@,
    {
        match self {
            FieldValue::Null => FieldValue::Null,
            FieldValue::Bool(b) => FieldValue::Bool(*b),
            FieldValue::Number(n) => FieldValue::Number(*n),
            FieldValue::OtherNumber(s) => FieldValue::OtherNumber(s.clone()),
            FieldValue::Text(s) => FieldValue::Text(s.clone()),
            FieldValue::Other(s) => FieldValue::Other(s.clone()),
        }
    }

    /// Whether two values are the same.
    pub fn same_as(&self, other: &FieldValue) -> (r: bool)
        ensures
            r == (self@ == other@),
    {
        match (self, other) {
            (FieldValue::Null, FieldValue::Null) => true,
            (FieldValue::Bool(p), FieldValue::Bool(q)) => *p == *q,
            (FieldValue::Number(p), FieldValue::Number(q)) => *p == *q,
            (FieldValue::OtherNumber(p), FieldValue::OtherNumber(q)) => str_eq(p.as_str(), q.as_str()),
            (FieldValue::Text(p), FieldValue::Text(q)) => str_eq(p.as_str(), q.as_str()),
            (FieldValue::Other(p), FieldValue::Other(q)) => str_eq(p.as_str(), q.as_str()),
            _ => false,
        }
    }
}

/// A value as a `u64`: numbers that fit.
pub open spec fn value_u64(v: FieldValueView) -> Option<u64> {
    match v {
        FieldValueView::Number(n) => Some(n),
        _ => None,
    }
}

/// A value read as a byte: a number truncated to 8 bits, or a text of
/// hex digits (with an optional `0x`/`0X`) that fits.
pub open spec fn value_u8(v: FieldValueView) -> Option<u8> {
    match v {
        FieldValueView::Number(n) => Some(n as u8),
        FieldValueView::Text(s) => match parse_unsigned(without_hex_prefix(s), 16, 0xff) {
            Some(x) => Some(x as u8),
            None => None,
        },
        _ => None,
    }
}

/// A value read as a 16-bit word, as [`value_u8`] does for bytes.
pub open spec fn value_u16(v: FieldValueView) -> Option<u16> {
    match v {
        FieldValueView::Number(n) => Some(n as u16),
        FieldValueView::Text(s) => match parse_unsigned(without_hex_prefix(s), 16, 0xffff) {
            Some(x) => Some(x as u16),
            None => None,
        },
        _ => None,
    }
}

fn hex_text_value(s: &str, max: u64) -> (r: Option<u64>)
    ensures
        match r {
            Some(x) => parse_unsigned(without_hex_prefix(s@), 16, max as nat) == Some(x as nat),
            None => parse_unsigned(without_hex_prefix(s@), 16, max as nat) is None,
        },
{
    let v = chars_of(s);
    let h = match strip_prefix_chars(&v, &chars_of("0x")) {
        Some(t) => t,
        None => match strip_prefix_chars(&v, &chars_of("0X")) {
            Some(t) => t,
            None => slice_chars(&v, 0, v.len()),
        },
    };
    assert(v@.subrange(0, v@.len() as int) =~= v@);
    parse_unsigned_exec(&h, 16, max)
}

// ---------------------------------------------------------------------------
// Entries
// ---------------------------------------------------------------------------

/// The map a list of name-value pairs denotes: a later pair of a name
/// replaces an earlier one.
pub open spec fn pairs_map(s: Seq<(String, FieldValue)>) -> Map<Seq<char>, FieldValueView>
    decreases s.len(),
{
    if s.len() == 0 {
        Map::empty()
    } else {
        pairs_map(s.drop_last()).insert(s.last().0@, s.last().1@)
    }
}

/// The position of the last pair named `k`.
pub open spec fn last_named_pair(s: Seq<(String, FieldValue)>, k: Seq<char>) -> Option<int>
    decreases s.len(),
{
    if s.len() == 0 {
        None
    } else if s.last().0@ == k {
        Some(s.len() - 1)
    } else {
        last_named_pair(s.drop_last(), k)
    }
}

proof fn lemma_last_named_pair(s: Seq<(String, FieldValue)>, k: Seq<char>)
    ensures
        match last_named_pair(s, k) {
            Some(i) => 0 <= i < s.len() && s[i].0@ == k && pairs_map(s).contains_key(k) && pairs_map(s)[k]
                == s[i].1@,
            None => !pairs_map(s).contains_key(k),
        },
    decreases s.len(),
{
    if s.len() > 0 {
        lemma_last_named_pair(s.drop_last(), k);
    }
}

proof fn lemma_update_last(s: Seq<(String, FieldValue)>, i: int, p: (String, FieldValue))
    requires
        last_named_pair(s, p.0@) == Some(i),
    ensures
        pairs_map(s.update(i, p)) =~= pairs_map(s).insert(p.0@, p.1@),
    decreases s.len(),
{
    lemma_last_named_pair(s, p.0@);
    let u = s.update(i, p);
    if i == s.len() - 1 {
        assert(u.drop_last() =~= s.drop_last());
    } else {
        assert(u.drop_last() =~= s.drop_last().update(i, p));
        lemma_update_last(s.drop_last(), i, p);
    }
}

/// How a register value is stored: `0x`, then its upper-case hex digits,
/// at least `width` of them.
pub open spec fn register_text(v: nat, width: nat) -> Seq<char> {
    "0x"@ + upper_hex_text(v, width)
}

/// An 8-bit register value as an entry stores it, e.g. `"0x0F"`.
pub open spec fn byte_value(v: u8) -> FieldValueView {
    FieldValueView::Text(register_text(v as nat, 2))
}

/// A 16-bit register value as an entry stores it, e.g. `"0x0100"`.
pub open spec fn word_value(v: u16) -> FieldValueView {
    FieldValueView::Text(register_text(v as nat, 4))
}

/// The stored text of a register value.
fn register_string(v: u64, width: usize) -> (r: String)
    ensures
        r@ == register_text(v as nat, width as nat),
{
    let mut t = chars_of("0x");
    let digits = upper_hex_exec(v, width);
    crate::text::append_chars(&mut t, &digits);
    string_of(&t)
}

/// A single trace entry: one row of emulator state.
#[derive(Debug, Clone)]
pub struct TraceEntry {
    fields: Vec<(String, FieldValue)>,
}

impl View for TraceEntry {
    type V = Map<Seq<char>, FieldValueView>;

    closed spec fn view(&self) -> Map<Seq<char>, FieldValueView> {
        pairs_map(self.fields@)
    }
}

impl TraceEntry {
    /// An entry with no field.
    pub fn new() -> (r: TraceEntry)
        ensures
            r@ == Map::<Seq<char>, FieldValueView>::empty(),
    {
        TraceEntry { fields: Vec::new() }
    }

    /// Set a field's value.
    pub fn set(&mut self, name: &str, value: FieldValue)
        ensures
            final(self)@ == old(self)@.insert(name@, value@),
    {
        let mut i = self.fields.len();
        assert(self.fields@.take(i as int) =~= self.fields@);
        while i > 0
            invariant
                i <= self.fields@.len(),
                self.fields@ == old(self).fields@,
                last_named_pair(self.fields@, name@) == last_named_pair(self.fields@.take(i as int), name@),
            decreases i,
        {
            assert(self.fields@.take(i as int).drop_last() =~= self.fields@.take(i - 1));
            if str_eq(self.fields[i - 1].0.as_str(), name) {
                let ghost s = self.fields@;
                let p = (self.fields[i - 1].0.clone(), value);
                proof {
                    lemma_update_last(s, i - 1, p);
                }
                self.fields.set(i - 1, p);
                return ;
            }
            i -= 1;
        }
        assert(self.fields@.take(0) =~= Seq::<(String, FieldValue)>::empty());
        let ghost s = self.fields@;
        let key = crate::text::string_of(&chars_of(name));
        self.fields.push((key, value));
        assert(self.fields@.drop_last() =~= s);
    }

    /// Set the cycle count.
    pub fn set_cy(&mut self, cy: u64)
        ensures
            final(self)@ == old(self)@.insert("cy"@, FieldValueView::Number(cy)),
    {
        self.set("cy", FieldValue::Number(cy));
    }

    /// The cycle count, when present as a number.
    pub fn cy(&self) -> (r: Option<u64>)
        ensures
            r == (if self@.contains_key("cy"@) {
                value_u64(self@["cy"@])
            } else {
                None
            }),
    {
        match self.get("cy") {
            Some(FieldValue::Number(n)) => Some(*n),
            _ => None,
        }
    }

    /// Set an 8-bit field (e.g. `"a"`, `"f"`, `"lcdc"`): stored as a hex
    /// string like `"0x0F"`.
    pub fn set_u8(&mut self, name: &str, val: u8)
        ensures
            final(self)@ == old(self)@.insert(name@, byte_value(val)),
    {
        self.set(name, FieldValue::Text(register_string(val as u64, 2)));
    }

    /// Set a 16-bit field (e.g. `"pc"`, `"sp"`): stored as a hex string
    /// like `"0x0100"`.
    pub fn set_u16(&mut self, name: &str, val: u16)
        ensures
            final(self)@ == old(self)@.insert(name@, word_value(val)),
    {
        self.set(name, FieldValue::Text(register_string(val as u64, 4)));
    }

    /// Set a boolean field (e.g. `"ime"`).
    pub fn set_bool(&mut self, name: &str, val: bool)
        ensures
            final(self)@ == old(self)@.insert(name@, FieldValueView::Bool(val)),
    {
        self.set(name, FieldValue::Bool(val));
    }

    /// Set a text field (e.g. `"pix"`).
    pub fn set_str(&mut self, name: &str, val: &str)
        ensures
            final(self)@ == old(self)@.insert(name@, FieldValueView::Text(val@)),
    {
        self.set(name, FieldValue::Text(crate::text::string_of(&chars_of(val))));
    }

    /// A field's value.
    pub fn get(&self, name: &str) -> (r: Option<&FieldValue>)
        ensures
            match r {
                Some(v) => self@.contains_key(name@) && self@[name@] == v@,
                None => !self@.contains_key(name@),
            },
    {
        let mut i = self.fields.len();
        assert(self.fields@.take(i as int) =~= self.fields@);
        while i > 0
            invariant
                i <= self.fields@.len(),
                last_named_pair(self.fields@, name@) == last_named_pair(self.fields@.take(i as int), name@),
            decreases i,
        {
            assert(self.fields@.take(i as int).drop_last() =~= self.fields@.take(i - 1));
            if str_eq(self.fields[i - 1].0.as_str(), name) {
                proof {
                    lemma_last_named_pair(self.fields@, name@);
                }
                return Some(&self.fields[i - 1].1);
            }
            i -= 1;
        }
        assert(self.fields@.take(0) =~= Seq::<(String, FieldValue)>::empty());
        proof {
            lemma_last_named_pair(self.fields@, name@);
        }
        None
    }

    /// A field as a byte: numbers are truncated, and legacy hex strings
    /// are read.
    pub fn get_u8(&self, name: &str) -> (r: Option<u8>)
        ensures
            r == (if self@.contains_key(name@) {
                value_u8(self@[name@])
            } else {
                None
            }),
    {
        match self.get(name) {
            Some(FieldValue::Number(n)) => Some(#[verifier::truncate] (*n as u8)),
            Some(FieldValue::Text(s)) => match hex_text_value(s.as_str(), 0xff) {
                Some(x) => Some(x as u8),
                None => None,
            },
            _ => None,
        }
    }

    /// A field as a 16-bit word: numbers are truncated, and legacy hex
    /// strings are read.
    pub fn get_u16(&self, name: &str) -> (r: Option<u16>)
        ensures
            r == (if self@.contains_key(name@) {
                value_u16(self@[name@])
            } else {
                None
            }),
    {
        match self.get(name) {
            Some(FieldValue::Number(n)) => Some(#[verifier::truncate] (*n as u16)),
            Some(FieldValue::Text(s)) => match hex_text_value(s.as_str(), 0xffff) {
                Some(x) => Some(x as u16),
                None => None,
            },
            _ => None,
        }
    }

    /// The entry's name-value pairs: a later pair of a name replaces an
    /// earlier one.
    pub fn pairs(&self) -> (r: &Vec<(String, FieldValue)>)
        ensures
            pairs_map(r@) == self@,
    {
        &self.fields
    }

    /// A copy with the same fields.
    pub fn duplicate(&self) -> (r: TraceEntry)
        ensures
            r@ == self@,
    {
        let mut r = TraceEntry::new();
        let mut i: usize = 0;
        while i < self.fields.len()
            invariant
                i <= self.fields@.len(),
                r@ == pairs_map(self.fields@.take(i as int)),
            decreases self.fields@.len() - i,
        {
            assert(self.fields@.take(i + 1).drop_last() =~= self.fields@.take(i as int));
            r.set(self.fields[i].0.as_str(), self.fields[i].1.duplicate());
            i += 1;
        }
        assert(self.fields@.take(i as int) =~= self.fields@);
        r
    }
}

/// The values of a list of entries.
pub open spec fn entries_view(es: Seq<TraceEntry>) -> Seq<Map<Seq<char>, FieldValueView>> {
    Seq::new(es.len(), |i: int| es[i]@)
}

} // verus!
