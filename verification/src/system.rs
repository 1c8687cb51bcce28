//! Machines: a CPU instruction set and the field catalogues of their chips,
//! with the query phrases a machine names on its own. The SG-1000, the
//! ColecoVision and the MSX1 share the Z80 and the TI VDP (TMS9918A):
//! active display is lines 0-191, and the frame interrupt rises entering
//! line 192 (0xC0).
use vstd::prelude::*;

use crate::catalogue::{ti_vdp, ti_vdp_layers, z80_cpu, z80_cpu_layers};
use crate::profile::{first_named, flatten_layers, flatten_subsystems, FieldDef, Layer, SubsystemDef};
use crate::query::{condition_of, parse_condition, parsed_as, Condition, ConditionShape};
use crate::text::{chars_of, str_eq, string_of, trim, trim_chars};

verus! {

/// An instruction set.
pub struct Isa {
    pub id: &'static str,
}

/// A phrase that names a condition on one machine: the field whose value
/// changes to `value`.
#[derive(Clone, Copy)]
pub struct ExactPhrase {
    pub phrase: &'static str,
    pub field: &'static str,
    pub value: &'static str,
}

/// A machine.
pub struct System {
    pub id: &'static str,
    pub isa: Isa,
    pub subsystems: Vec<SubsystemDef>,
    pub exact_phrases: Vec<ExactPhrase>,
}

/// The Z80 and TI VDP catalogues, in field order.
pub open spec fn z80_vdp_subsystems() -> Seq<Seq<(Layer, Seq<FieldDef>)>> {
    seq![z80_cpu_layers(), ti_vdp_layers()]
}

/// The machines of the registry: the SG-1000, the ColecoVision and the MSX1.
pub open spec fn is_system_id(id: Seq<char>) -> bool {
    id == "sg1000"@ || id == "coleco"@ || id == "msx1"@
}

/// The condition a phrase names.
pub open spec fn phrase_shape(p: ExactPhrase) -> ConditionShape {
    ConditionShape::FieldChangesTo(p.field@, p.value@)
}

/// The condition of the first phrase equal to `t`.
pub open spec fn phrase_match(ps: Seq<ExactPhrase>, t: Seq<char>) -> Option<ConditionShape>
    decreases ps.len(),
{
    if ps.len() == 0 {
        None
    } else if phrase_match(ps.drop_last(), t) is Some {
        phrase_match(ps.drop_last(), t)
    } else if ps.last().phrase@ == t {
        Some(phrase_shape(ps.last()))
    } else {
        None
    }
}

/// What parsing a condition for a machine answers: the machine's own
/// phrase (the text trimmed), else the general condition syntax.
pub open spec fn system_condition_of(s: Seq<char>, ps: Seq<ExactPhrase>) -> Result<ConditionShape, Seq<char>> {
    match phrase_match(ps, trim(s)) {
        Some(c) => Ok(c),
        None => condition_of(s),
    }
}

impl System {
    /// The catalogues of the machine's chips.
    pub open spec fn subsystems_view(&self) -> Seq<Seq<(Layer, Seq<FieldDef>)>> {
        Seq::new(self.subsystems@.len(), |i: int| self.subsystems@[i].layers_view())
    }

    /// Look a field up across the machine's chips: the first of that name.
    pub fn lookup_field(&self, name: &str) -> (r: Option<FieldDef>)
        ensures
            r == first_named(flatten_subsystems(self.subsystems_view()), name@),
    {
        let ghost ss = self.subsystems_view();
        let mut defs: Vec<FieldDef> = Vec::new();
        let mut i: usize = 0;
        while i < self.subsystems.len()
            invariant
                i <= self.subsystems@.len(),
                ss == self.subsystems_view(),
                defs@ == flatten_subsystems(ss.take(i as int)),
            decreases self.subsystems@.len() - i,
        {
            assert(ss.take(i + 1).drop_last() =~= ss.take(i as int));
            let fs = self.subsystems[i].all_fields();
            let ghost d0 = defs@;
            let mut j: usize = 0;
            while j < fs.len()
                invariant
                    j <= fs@.len(),
                    defs@ == d0 + fs@.take(j as int),
                decreases fs@.len() - j,
            {
                defs.push(fs[j]);
                j += 1;
                assert(defs@ =~= d0 + fs@.take(j as int));
            }
            assert(fs@.take(j as int) =~= fs@);
            i += 1;
        }
        assert(ss.take(i as int) =~= ss);
        let mut k: usize = 0;
        while k < defs.len()
            invariant
                k <= defs@.len(),
                ss == self.subsystems_view(),
                defs@ == flatten_subsystems(ss),
                first_named(defs@.take(k as int), name@) is None,
            decreases defs@.len() - k,
        {
            assert(defs@.take(k + 1).drop_last() =~= defs@.take(k as int));
            if str_eq(defs[k].name, name) {
                assert(defs@.take(k + 1).last() == defs@[k as int]);
                assert(first_named(defs@.take(k + 1), name@) == Some(defs@[k as int]));
                proof {
                    lemma_first_named_prefix(defs@, k + 1, name@);
                }
                return Some(defs[k]);
            }
            k += 1;
        }
        assert(defs@.take(k as int) =~= defs@);
        None
    }
}

proof fn lemma_first_named_prefix(defs: Seq<FieldDef>, k: int, name: Seq<char>)
    requires
        0 <= k <= defs.len(),
        first_named(defs.take(k), name) is Some,
    ensures
        first_named(defs, name) == first_named(defs.take(k), name),
    decreases defs.len() - k,
{
    if k < defs.len() {
        assert(defs.take(k + 1).drop_last() =~= defs.take(k));
        lemma_first_named_prefix(defs, k + 1, name);
    } else {
        assert(defs.take(k) =~= defs);
    }
}

fn z80_vdp() -> (r: Vec<SubsystemDef>)
    ensures
        Seq::new(r@.len(), |i: int| r@[i].layers_view()) == z80_vdp_subsystems(),
{
    let mut r: Vec<SubsystemDef> = Vec::new();
    r.push(z80_cpu());
    r.push(ti_vdp());
    assert(Seq::new(r@.len(), |i: int| r@[i].layers_view()) =~= z80_vdp_subsystems());
    r
}

/// The frame interrupt of the TI VDP machines: `line` changes to 0xc0.
fn vdp_phrases() -> (r: Vec<ExactPhrase>)
    ensures
        r@.len() == 1,
        r@[0].phrase@ == "vblank starts"@,
        r@[0].field@ == "line"@,
        r@[0].value@ == "0xc0"@,
{
    let mut r: Vec<ExactPhrase> = Vec::new();
    r.push(ExactPhrase { phrase: "vblank starts", field: "line", value: "0xc0" });
    r
}

/// Look a machine up by its identifier.
pub fn system(id: &str) -> (r: Option<System>)
    ensures
        match r {
            Some(s) => {
                &&& is_system_id(id@)
                &&& s.id@ == id@
                &&& s.isa.id@ == "z80"@
                &&& s.subsystems_view() == z80_vdp_subsystems()
                &&& s.exact_phrases@.len() == 1
                &&& s.exact_phrases@[0].phrase@ == "vblank starts"@
                &&& s.exact_phrases@[0].field@ == "line"@
                &&& s.exact_phrases@[0].value@ == "0xc0"@
            },
            None => !is_system_id(id@),
        },
{
    let name: &'static str = if str_eq(id, "sg1000") {
        "sg1000"
    } else if str_eq(id, "coleco") {
        "coleco"
    } else if str_eq(id, "msx1") {
        "msx1"
    } else {
        return None;
    };
    let subs = z80_vdp();
    Some(System { id: name, isa: Isa { id: "z80" }, subsystems: subs, exact_phrases: vdp_phrases() })
}

/// Parse a condition for a machine: one of its own phrases (compared with
/// the text trimmed), else the general condition syntax.
pub fn parse_condition_for(s: &str, sys: &System) -> (r: Result<Condition, String>)
    ensures
        parsed_as(r, system_condition_of(s@, sys.exact_phrases@)),
{
    let t = trim_chars(&chars_of(s));
    let ts = string_of(&t);
    let ps = &sys.exact_phrases;
    let mut i: usize = 0;
    while i < ps.len()
        invariant
            i <= ps@.len(),
            ps@ == sys.exact_phrases@,
            ts@ == trim(s@),
            phrase_match(ps@.take(i as int), trim(s@)) is None,
        decreases ps@.len() - i,
    {
        assert(ps@.take(i + 1).drop_last() =~= ps@.take(i as int));
        if str_eq(ps[i].phrase, ts.as_str()) {
            assert(ps@.take(i + 1).last() == ps@[i as int]);
            assert(phrase_match(ps@.take(i + 1), trim(s@)) == Some(phrase_shape(ps@[i as int])));
            proof {
                lemma_phrase_prefix(ps@, i + 1, trim(s@));
            }
            let c = Condition::FieldChangesTo {
                field: string_of(&chars_of(ps[i].field)),
                value: string_of(&chars_of(ps[i].value)),
            };
            assert(c.shape() == phrase_shape(ps@[i as int]));
            return Ok(c);
        }
        i += 1;
    }
    assert(ps@.take(i as int) =~= ps@);
    parse_condition(s)
}

proof fn lemma_phrase_prefix(ps: Seq<ExactPhrase>, k: int, t: Seq<char>)
    requires
        0 <= k <= ps.len(),
        phrase_match(ps.take(k), t) is Some,
    ensures
        phrase_match(ps, t) == phrase_match(ps.take(k), t),
    decreases ps.len() - k,
{
    if k < ps.len() {
        assert(ps.take(k + 1).drop_last() =~= ps.take(k));
        lemma_phrase_prefix(ps, k + 1, t);
    } else {
        assert(ps.take(k) =~= ps);
    }
}

} // verus!
