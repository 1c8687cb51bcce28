//! The field catalogues of the traced chips: for each subsystem, its
//! capture layers and the fields of each layer, in capture order.
use vstd::prelude::*;

use crate::profile::{FieldDef, FieldType, Layer, SubsystemDef};

verus! {

/// A field definition.
pub open spec fn def(name: &'static str, field_type: FieldType, nullable: bool, dictionary: bool) -> FieldDef {
    FieldDef { name, field_type, nullable, dictionary }
}

fn mk(name: &'static str, field_type: FieldType, nullable: bool, dictionary: bool) -> (d: FieldDef)
    ensures
        d == def(name, field_type, nullable, dictionary),
{
    FieldDef { name, field_type, nullable, dictionary }
}

/// The layers of the Game Boy SM83 CPU.
pub open spec fn gb_cpu_layers() -> Seq<(Layer, Seq<FieldDef>)> {
    seq![
        (Layer::Registers, seq![
            def("pc", FieldType::UInt16, false, false),
            def("sp", FieldType::UInt16, false, false),
            def("a", FieldType::UInt8, false, false),
            def("f", FieldType::UInt8, false, true),
            def("b", FieldType::UInt8, false, false),
            def("c", FieldType::UInt8, false, false),
            def("d", FieldType::UInt8, false, false),
            def("e", FieldType::UInt8, false, false),
            def("h", FieldType::UInt8, false, false),
            def("l", FieldType::UInt8, false, false),
            def("ime", FieldType::Bool, false, true),
        ]),
        (Layer::Timing, seq![
            def("mcycles", FieldType::UInt8, false, false),
            def("tcycles", FieldType::UInt8, false, false),
        ]),
    ]
}

/// The Game Boy SM83 CPU.
pub fn gb_cpu() -> (s: SubsystemDef)
    ensures
        s.name == "cpu",
        s.layers_view() == gb_cpu_layers(),
{
    let mut layers: Vec<(Layer, Vec<FieldDef>)> = Vec::new();
    let mut v0: Vec<FieldDef> = Vec::new();
    v0.push(mk("pc", FieldType::UInt16, false, false));
    v0.push(mk("sp", FieldType::UInt16, false, false));
    v0.push(mk("a", FieldType::UInt8, false, false));
    v0.push(mk("f", FieldType::UInt8, false, true));
    v0.push(mk("b", FieldType::UInt8, false, false));
    v0.push(mk("c", FieldType::UInt8, false, false));
    v0.push(mk("d", FieldType::UInt8, false, false));
    v0.push(mk("e", FieldType::UInt8, false, false));
    v0.push(mk("h", FieldType::UInt8, false, false));
    v0.push(mk("l", FieldType::UInt8, false, false));
    v0.push(mk("ime", FieldType::Bool, false, true));
    assert(v0@ =~= gb_cpu_layers()[0].1);
    layers.push((Layer::Registers, v0));
    let mut v1: Vec<FieldDef> = Vec::new();
    v1.push(mk("mcycles", FieldType::UInt8, false, false));
    v1.push(mk("tcycles", FieldType::UInt8, false, false));
    assert(v1@ =~= gb_cpu_layers()[1].1);
    layers.push((Layer::Timing, v1));
    let s = SubsystemDef { name: "cpu", layers };
    assert(s.layers_view() =~= gb_cpu_layers());
    s
}

/// The layers of the Game Boy PPU.
pub open spec fn gb_ppu_layers() -> Seq<(Layer, Seq<FieldDef>)> {
    seq![
        (Layer::Registers, seq![
            def("lcdc", FieldType::UInt8, false, true),
            def("stat", FieldType::UInt8, false, true),
            def("ly", FieldType::UInt8, false, false),
            def("lyc", FieldType::UInt8, false, false),
            def("scy", FieldType::UInt8, false, false),
            def("scx", FieldType::UInt8, false, false),
            def("wy", FieldType::UInt8, false, false),
            def("wx", FieldType::UInt8, false, false),
            def("bgp", FieldType::UInt8, false, true),
            def("obp0", FieldType::UInt8, false, true),
            def("obp1", FieldType::UInt8, false, true),
            def("dma", FieldType::UInt8, false, false),
        ]),
        (Layer::Internal, seq![
            def("oam0_x", FieldType::UInt8, false, false),
            def("oam0_id", FieldType::UInt8, false, false),
            def("oam0_attr", FieldType::UInt8, false, false),
            def("oam1_x", FieldType::UInt8, false, false),
            def("oam1_id", FieldType::UInt8, false, false),
            def("oam1_attr", FieldType::UInt8, false, false),
            def("oam2_x", FieldType::UInt8, false, false),
            def("oam2_id", FieldType::UInt8, false, false),
            def("oam2_attr", FieldType::UInt8, false, false),
            def("oam3_x", FieldType::UInt8, false, false),
            def("oam3_id", FieldType::UInt8, false, false),
            def("oam3_attr", FieldType::UInt8, false, false),
            def("oam4_x", FieldType::UInt8, false, false),
            def("oam4_id", FieldType::UInt8, false, false),
            def("oam4_attr", FieldType::UInt8, false, false),
            def("oam5_x", FieldType::UInt8, false, false),
            def("oam5_id", FieldType::UInt8, false, false),
            def("oam5_attr", FieldType::UInt8, false, false),
            def("oam6_x", FieldType::UInt8, false, false),
            def("oam6_id", FieldType::UInt8, false, false),
            def("oam6_attr", FieldType::UInt8, false, false),
            def("oam7_x", FieldType::UInt8, false, false),
            def("oam7_id", FieldType::UInt8, false, false),
            def("oam7_attr", FieldType::UInt8, false, false),
            def("oam8_x", FieldType::UInt8, false, false),
            def("oam8_id", FieldType::UInt8, false, false),
            def("oam8_attr", FieldType::UInt8, false, false),
            def("oam9_x", FieldType::UInt8, false, false),
            def("oam9_id", FieldType::UInt8, false, false),
            def("oam9_attr", FieldType::UInt8, false, false),
            def("bgw_fifo_a", FieldType::UInt8, false, false),
            def("bgw_fifo_b", FieldType::UInt8, false, false),
            def("spr_fifo_a", FieldType::UInt8, false, false),
            def("spr_fifo_b", FieldType::UInt8, false, false),
            def("mask_pipe", FieldType::UInt8, false, false),
            def("pal_pipe", FieldType::UInt8, false, false),
            def("tfetch_state", FieldType::UInt8, false, true),
            def("sfetch_state", FieldType::UInt8, false, true),
            def("tile_temp_a", FieldType::UInt8, false, false),
            def("tile_temp_b", FieldType::UInt8, false, false),
            def("pix_count", FieldType::UInt8, false, false),
            def("sprite_count", FieldType::UInt8, false, false),
            def("scan_count", FieldType::UInt8, false, false),
            def("rendering", FieldType::Bool, false, true),
            def("win_mode", FieldType::Bool, false, true),
        ]),
        (Layer::Writes, seq![
            def("vram_addr", FieldType::UInt16, true, false),
            def("vram_data", FieldType::UInt8, true, false),
        ]),
        (Layer::Output, seq![
            def("pix", FieldType::Str, true, false),
            def("pix_x", FieldType::UInt8, false, false),
        ]),
    ]
}

/// The Game Boy PPU.
pub fn gb_ppu() -> (s: SubsystemDef)
    ensures
        s.name == "ppu",
        s.layers_view() == gb_ppu_layers(),
{
    let mut layers: Vec<(Layer, Vec<FieldDef>)> = Vec::new();
    let mut v0: Vec<FieldDef> = Vec::new();
    v0.push(mk("lcdc", FieldType::UInt8, false, true));
    v0.push(mk("stat", FieldType::UInt8, false, true));
    v0.push(mk("ly", FieldType::UInt8, false, false));
    v0.push(mk("lyc", FieldType::UInt8, false, false));
    v0.push(mk("scy", FieldType::UInt8, false, false));
    v0.push(mk("scx", FieldType::UInt8, false, false));
    v0.push(mk("wy", FieldType::UInt8, false, false));
    v0.push(mk("wx", FieldType::UInt8, false, false));
    v0.push(mk("bgp", FieldType::UInt8, false, true));
    v0.push(mk("obp0", FieldType::UInt8, false, true));
    v0.push(mk("obp1", FieldType::UInt8, false, true));
    v0.push(mk("dma", FieldType::UInt8, false, false));
    assert(v0@ =~= gb_ppu_layers()[0].1);
    layers.push((Layer::Registers, v0));
    let mut v1: Vec<FieldDef> = Vec::new();
    v1.push(mk("oam0_x", FieldType::UInt8, false, false));
    v1.push(mk("oam0_id", FieldType::UInt8, false, false));
    v1.push(mk("oam0_attr", FieldType::UInt8, false, false));
    v1.push(mk("oam1_x", FieldType::UInt8, false, false));
    v1.push(mk("oam1_id", FieldType::UInt8, false, false));
    v1.push(mk("oam1_attr", FieldType::UInt8, false, false));
    v1.push(mk("oam2_x", FieldType::UInt8, false, false));
    v1.push(mk("oam2_id", FieldType::UInt8, false, false));
    v1.push(mk("oam2_attr", FieldType::UInt8, false, false));
    v1.push(mk("oam3_x", FieldType::UInt8, false, false));
    v1.push(mk("oam3_id", FieldType::UInt8, false, false));
    v1.push(mk("oam3_attr", FieldType::UInt8, false, false));
    v1.push(mk("oam4_x", FieldType::UInt8, false, false));
    v1.push(mk("oam4_id", FieldType::UInt8, false, false));
    v1.push(mk("oam4_attr", FieldType::UInt8, false, false));
    v1.push(mk("oam5_x", FieldType::UInt8, false, false));
    v1.push(mk("oam5_id", FieldType::UInt8, false, false));
    v1.push(mk("oam5_attr", FieldType::UInt8, false, false));
    v1.push(mk("oam6_x", FieldType::UInt8, false, false));
    v1.push(mk("oam6_id", FieldType::UInt8, false, false));
    v1.push(mk("oam6_attr", FieldType::UInt8, false, false));
    v1.push(mk("oam7_x", FieldType::UInt8, false, false));
    v1.push(mk("oam7_id", FieldType::UInt8, false, false));
    v1.push(mk("oam7_attr", FieldType::UInt8, false, false));
    v1.push(mk("oam8_x", FieldType::UInt8, false, false));
    v1.push(mk("oam8_id", FieldType::UInt8, false, false));
    v1.push(mk("oam8_attr", FieldType::UInt8, false, false));
    v1.push(mk("oam9_x", FieldType::UInt8, false, false));
    v1.push(mk("oam9_id", FieldType::UInt8, false, false));
    v1.push(mk("oam9_attr", FieldType::UInt8, false, false));
    v1.push(mk("bgw_fifo_a", FieldType::UInt8, false, false));
    v1.push(mk("bgw_fifo_b", FieldType::UInt8, false, false));
    v1.push(mk("spr_fifo_a", FieldType::UInt8, false, false));
    v1.push(mk("spr_fifo_b", FieldType::UInt8, false, false));
    v1.push(mk("mask_pipe", FieldType::UInt8, false, false));
    v1.push(mk("pal_pipe", FieldType::UInt8, false, false));
    v1.push(mk("tfetch_state", FieldType::UInt8, false, true));
    v1.push(mk("sfetch_state", FieldType::UInt8, false, true));
    v1.push(mk("tile_temp_a", FieldType::UInt8, false, false));
    v1.push(mk("tile_temp_b", FieldType::UInt8, false, false));
    v1.push(mk("pix_count", FieldType::UInt8, false, false));
    v1.push(mk("sprite_count", FieldType::UInt8, false, false));
    v1.push(mk("scan_count", FieldType::UInt8, false, false));
    v1.push(mk("rendering", FieldType::Bool, false, true));
    v1.push(mk("win_mode", FieldType::Bool, false, true));
    assert(v1@ =~= gb_ppu_layers()[1].1);
    layers.push((Layer::Internal, v1));
    let mut v2: Vec<FieldDef> = Vec::new();
    v2.push(mk("vram_addr", FieldType::UInt16, true, false));
    v2.push(mk("vram_data", FieldType::UInt8, true, false));
    assert(v2@ =~= gb_ppu_layers()[2].1);
    layers.push((Layer::Writes, v2));
    let mut v3: Vec<FieldDef> = Vec::new();
    v3.push(mk("pix", FieldType::Str, true, false));
    v3.push(mk("pix_x", FieldType::UInt8, false, false));
    assert(v3@ =~= gb_ppu_layers()[3].1);
    layers.push((Layer::Output, v3));
    let s = SubsystemDef { name: "ppu", layers };
    assert(s.layers_view() =~= gb_ppu_layers());
    s
}

/// The layers of the Game Boy APU.
pub open spec fn gb_apu_layers() -> Seq<(Layer, Seq<FieldDef>)> {
    seq![
        (Layer::Registers, seq![
            def("nr10", FieldType::UInt8, false, false),
            def("nr11", FieldType::UInt8, false, false),
            def("nr12", FieldType::UInt8, false, false),
            def("nr13", FieldType::UInt8, false, false),
            def("nr14", FieldType::UInt8, false, false),
            def("nr21", FieldType::UInt8, false, false),
            def("nr22", FieldType::UInt8, false, false),
            def("nr23", FieldType::UInt8, false, false),
            def("nr24", FieldType::UInt8, false, false),
            def("nr30", FieldType::UInt8, false, false),
            def("nr31", FieldType::UInt8, false, false),
            def("nr32", FieldType::UInt8, false, false),
            def("nr33", FieldType::UInt8, false, false),
            def("nr34", FieldType::UInt8, false, false),
            def("nr41", FieldType::UInt8, false, false),
            def("nr42", FieldType::UInt8, false, false),
            def("nr43", FieldType::UInt8, false, false),
            def("nr44", FieldType::UInt8, false, false),
            def("nr50", FieldType::UInt8, false, false),
            def("nr51", FieldType::UInt8, false, false),
            def("nr52", FieldType::UInt8, false, false),
        ]),
        (Layer::Internal, Seq::<FieldDef>::empty()),
        (Layer::Writes, seq![
            def("wave_addr", FieldType::UInt16, true, false),
            def("wave_data", FieldType::UInt8, true, false),
        ]),
    ]
}

/// The Game Boy APU.
pub fn gb_apu() -> (s: SubsystemDef)
    ensures
        s.name == "apu",
        s.layers_view() == gb_apu_layers(),
{
    let mut layers: Vec<(Layer, Vec<FieldDef>)> = Vec::new();
    let mut v0: Vec<FieldDef> = Vec::new();
    v0.push(mk("nr10", FieldType::UInt8, false, false));
    v0.push(mk("nr11", FieldType::UInt8, false, false));
    v0.push(mk("nr12", FieldType::UInt8, false, false));
    v0.push(mk("nr13", FieldType::UInt8, false, false));
    v0.push(mk("nr14", FieldType::UInt8, false, false));
    v0.push(mk("nr21", FieldType::UInt8, false, false));
    v0.push(mk("nr22", FieldType::UInt8, false, false));
    v0.push(mk("nr23", FieldType::UInt8, false, false));
    v0.push(mk("nr24", FieldType::UInt8, false, false));
    v0.push(mk("nr30", FieldType::UInt8, false, false));
    v0.push(mk("nr31", FieldType::UInt8, false, false));
    v0.push(mk("nr32", FieldType::UInt8, false, false));
    v0.push(mk("nr33", FieldType::UInt8, false, false));
    v0.push(mk("nr34", FieldType::UInt8, false, false));
    v0.push(mk("nr41", FieldType::UInt8, false, false));
    v0.push(mk("nr42", FieldType::UInt8, false, false));
    v0.push(mk("nr43", FieldType::UInt8, false, false));
    v0.push(mk("nr44", FieldType::UInt8, false, false));
    v0.push(mk("nr50", FieldType::UInt8, false, false));
    v0.push(mk("nr51", FieldType::UInt8, false, false));
    v0.push(mk("nr52", FieldType::UInt8, false, false));
    assert(v0@ =~= gb_apu_layers()[0].1);
    layers.push((Layer::Registers, v0));
    let mut v1: Vec<FieldDef> = Vec::new();
    assert(v1@ =~= gb_apu_layers()[1].1);
    layers.push((Layer::Internal, v1));
    let mut v2: Vec<FieldDef> = Vec::new();
    v2.push(mk("wave_addr", FieldType::UInt16, true, false));
    v2.push(mk("wave_data", FieldType::UInt8, true, false));
    assert(v2@ =~= gb_apu_layers()[2].1);
    layers.push((Layer::Writes, v2));
    let s = SubsystemDef { name: "apu", layers };
    assert(s.layers_view() =~= gb_apu_layers());
    s
}

/// The layers of the Game Boy timer.
pub open spec fn gb_timer_layers() -> Seq<(Layer, Seq<FieldDef>)> {
    seq![
        (Layer::Registers, seq![
            def("div", FieldType::UInt8, false, false),
            def("tima", FieldType::UInt8, false, false),
            def("tma", FieldType::UInt8, false, false),
            def("tac", FieldType::UInt8, false, true),
        ]),
    ]
}

/// The Game Boy timer.
pub fn gb_timer() -> (s: SubsystemDef)
    ensures
        s.name == "timer",
        s.layers_view() == gb_timer_layers(),
{
    let mut layers: Vec<(Layer, Vec<FieldDef>)> = Vec::new();
    let mut v0: Vec<FieldDef> = Vec::new();
    v0.push(mk("div", FieldType::UInt8, false, false));
    v0.push(mk("tima", FieldType::UInt8, false, false));
    v0.push(mk("tma", FieldType::UInt8, false, false));
    v0.push(mk("tac", FieldType::UInt8, false, true));
    assert(v0@ =~= gb_timer_layers()[0].1);
    layers.push((Layer::Registers, v0));
    let s = SubsystemDef { name: "timer", layers };
    assert(s.layers_view() =~= gb_timer_layers());
    s
}

/// The layers of the Game Boy interrupt controller.
pub open spec fn gb_interrupt_layers() -> Seq<(Layer, Seq<FieldDef>)> {
    seq![
        (Layer::Registers, seq![
            def("if_", FieldType::UInt8, false, false),
            def("ie", FieldType::UInt8, false, false),
        ]),
    ]
}

/// The Game Boy interrupt controller.
pub fn gb_interrupt() -> (s: SubsystemDef)
    ensures
        s.name == "interrupt",
        s.layers_view() == gb_interrupt_layers(),
{
    let mut layers: Vec<(Layer, Vec<FieldDef>)> = Vec::new();
    let mut v0: Vec<FieldDef> = Vec::new();
    v0.push(mk("if_", FieldType::UInt8, false, false));
    v0.push(mk("ie", FieldType::UInt8, false, false));
    assert(v0@ =~= gb_interrupt_layers()[0].1);
    layers.push((Layer::Registers, v0));
    let s = SubsystemDef { name: "interrupt", layers };
    assert(s.layers_view() =~= gb_interrupt_layers());
    s
}

/// The layers of the Game Boy serial port.
pub open spec fn gb_serial_layers() -> Seq<(Layer, Seq<FieldDef>)> {
    seq![
        (Layer::Registers, seq![
            def("sb", FieldType::UInt8, false, false),
            def("sc", FieldType::UInt8, false, false),
        ]),
    ]
}

/// The Game Boy serial port.
pub fn gb_serial() -> (s: SubsystemDef)
    ensures
        s.name == "serial",
        s.layers_view() == gb_serial_layers(),
{
    let mut layers: Vec<(Layer, Vec<FieldDef>)> = Vec::new();
    let mut v0: Vec<FieldDef> = Vec::new();
    v0.push(mk("sb", FieldType::UInt8, false, false));
    v0.push(mk("sc", FieldType::UInt8, false, false));
    assert(v0@ =~= gb_serial_layers()[0].1);
    layers.push((Layer::Registers, v0));
    let s = SubsystemDef { name: "serial", layers };
    assert(s.layers_view() =~= gb_serial_layers());
    s
}

/// The layers of the Zilog Z80 register file, shared by every system carrying the core.
pub open spec fn z80_cpu_layers() -> Seq<(Layer, Seq<FieldDef>)> {
    seq![
        (Layer::Registers, seq![
            def("pc", FieldType::UInt16, false, false),
            def("op_addr", FieldType::UInt16, false, false),
            def("sp", FieldType::UInt16, false, false),
            def("a", FieldType::UInt8, false, false),
            def("f", FieldType::UInt8, false, true),
            def("b", FieldType::UInt8, false, false),
            def("c", FieldType::UInt8, false, false),
            def("d", FieldType::UInt8, false, false),
            def("e", FieldType::UInt8, false, false),
            def("h", FieldType::UInt8, false, false),
            def("l", FieldType::UInt8, false, false),
            def("ix", FieldType::UInt16, false, false),
            def("iy", FieldType::UInt16, false, false),
            def("wz", FieldType::UInt16, false, false),
            def("a_", FieldType::UInt8, false, false),
            def("f_", FieldType::UInt8, false, true),
            def("b_", FieldType::UInt8, false, false),
            def("c_", FieldType::UInt8, false, false),
            def("d_", FieldType::UInt8, false, false),
            def("e_", FieldType::UInt8, false, false),
            def("h_", FieldType::UInt8, false, false),
            def("l_", FieldType::UInt8, false, false),
            def("i", FieldType::UInt8, false, false),
            def("r", FieldType::UInt8, false, false),
        ]),
        (Layer::Internal, seq![
            def("im", FieldType::UInt8, false, true),
            def("iff1", FieldType::Bool, false, true),
            def("iff2", FieldType::Bool, false, true),
            def("halted", FieldType::Bool, false, true),
        ]),
        (Layer::Timing, seq![
            def("cycles", FieldType::UInt8, false, false),
        ]),
    ]
}

/// The Zilog Z80 register file, shared by every system carrying the core.
pub fn z80_cpu() -> (s: SubsystemDef)
    ensures
        s.name == "cpu",
        s.layers_view() == z80_cpu_layers(),
{
    let mut layers: Vec<(Layer, Vec<FieldDef>)> = Vec::new();
    let mut v0: Vec<FieldDef> = Vec::new();
    v0.push(mk("pc", FieldType::UInt16, false, false));
    v0.push(mk("op_addr", FieldType::UInt16, false, false));
    v0.push(mk("sp", FieldType::UInt16, false, false));
    v0.push(mk("a", FieldType::UInt8, false, false));
    v0.push(mk("f", FieldType::UInt8, false, true));
    v0.push(mk("b", FieldType::UInt8, false, false));
    v0.push(mk("c", FieldType::UInt8, false, false));
    v0.push(mk("d", FieldType::UInt8, false, false));
    v0.push(mk("e", FieldType::UInt8, false, false));
    v0.push(mk("h", FieldType::UInt8, false, false));
    v0.push(mk("l", FieldType::UInt8, false, false));
    v0.push(mk("ix", FieldType::UInt16, false, false));
    v0.push(mk("iy", FieldType::UInt16, false, false));
    v0.push(mk("wz", FieldType::UInt16, false, false));
    v0.push(mk("a_", FieldType::UInt8, false, false));
    v0.push(mk("f_", FieldType::UInt8, false, true));
    v0.push(mk("b_", FieldType::UInt8, false, false));
    v0.push(mk("c_", FieldType::UInt8, false, false));
    v0.push(mk("d_", FieldType::UInt8, false, false));
    v0.push(mk("e_", FieldType::UInt8, false, false));
    v0.push(mk("h_", FieldType::UInt8, false, false));
    v0.push(mk("l_", FieldType::UInt8, false, false));
    v0.push(mk("i", FieldType::UInt8, false, false));
    v0.push(mk("r", FieldType::UInt8, false, false));
    assert(v0@ =~= z80_cpu_layers()[0].1);
    layers.push((Layer::Registers, v0));
    let mut v1: Vec<FieldDef> = Vec::new();
    v1.push(mk("im", FieldType::UInt8, false, true));
    v1.push(mk("iff1", FieldType::Bool, false, true));
    v1.push(mk("iff2", FieldType::Bool, false, true));
    v1.push(mk("halted", FieldType::Bool, false, true));
    assert(v1@ =~= z80_cpu_layers()[1].1);
    layers.push((Layer::Internal, v1));
    let mut v2: Vec<FieldDef> = Vec::new();
    v2.push(mk("cycles", FieldType::UInt8, false, false));
    assert(v2@ =~= z80_cpu_layers()[2].1);
    layers.push((Layer::Timing, v2));
    let s = SubsystemDef { name: "cpu", layers };
    assert(s.layers_view() =~= z80_cpu_layers());
    s
}

/// The layers of the TI TMS9918A video display processor.
pub open spec fn ti_vdp_layers() -> Seq<(Layer, Seq<FieldDef>)> {
    seq![
        (Layer::Registers, seq![
            def("reg0", FieldType::UInt8, false, true),
            def("reg1", FieldType::UInt8, false, true),
            def("reg2", FieldType::UInt8, false, true),
            def("reg3", FieldType::UInt8, false, true),
            def("reg4", FieldType::UInt8, false, true),
            def("reg5", FieldType::UInt8, false, true),
            def("reg6", FieldType::UInt8, false, true),
            def("reg7", FieldType::UInt8, false, true),
            def("status", FieldType::UInt8, false, true),
            def("line", FieldType::UInt16, false, false),
            def("dot", FieldType::UInt16, false, false),
        ]),
        (Layer::Internal, seq![
            def("addr", FieldType::UInt16, false, false),
            def("latch", FieldType::Bool, false, true),
            def("buffer", FieldType::UInt8, false, false),
        ]),
    ]
}

/// The TI TMS9918A video display processor.
pub fn ti_vdp() -> (s: SubsystemDef)
    ensures
        s.name == "vdp",
        s.layers_view() == ti_vdp_layers(),
{
    let mut layers: Vec<(Layer, Vec<FieldDef>)> = Vec::new();
    let mut v0: Vec<FieldDef> = Vec::new();
    v0.push(mk("reg0", FieldType::UInt8, false, true));
    v0.push(mk("reg1", FieldType::UInt8, false, true));
    v0.push(mk("reg2", FieldType::UInt8, false, true));
    v0.push(mk("reg3", FieldType::UInt8, false, true));
    v0.push(mk("reg4", FieldType::UInt8, false, true));
    v0.push(mk("reg5", FieldType::UInt8, false, true));
    v0.push(mk("reg6", FieldType::UInt8, false, true));
    v0.push(mk("reg7", FieldType::UInt8, false, true));
    v0.push(mk("status", FieldType::UInt8, false, true));
    v0.push(mk("line", FieldType::UInt16, false, false));
    v0.push(mk("dot", FieldType::UInt16, false, false));
    assert(v0@ =~= ti_vdp_layers()[0].1);
    layers.push((Layer::Registers, v0));
    let mut v1: Vec<FieldDef> = Vec::new();
    v1.push(mk("addr", FieldType::UInt16, false, false));
    v1.push(mk("latch", FieldType::Bool, false, true));
    v1.push(mk("buffer", FieldType::UInt8, false, false));
    assert(v1@ =~= ti_vdp_layers()[1].1);
    layers.push((Layer::Internal, v1));
    let s = SubsystemDef { name: "vdp", layers };
    assert(s.layers_view() =~= ti_vdp_layers());
    s
}

} // verus!
