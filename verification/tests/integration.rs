use gbtrace::entry::{FieldValue, TraceEntry};
use gbtrace::header::{BootRom, TraceHeader, Trigger};
use gbtrace::profile::{LayerSelection, Profile, ProfileSource};

fn test_header() -> TraceHeader {
    TraceHeader {
        _header: true,
        format_version: "0.1.0".into(),
        emulator: "test-emu".into(),
        emulator_version: "1.0.0".into(),
        rom_sha256: "abcd1234".into(),
        model: "DMG-B".into(),
        boot_rom: BootRom::Skip,
        profile: "cpu_basic".into(),
        fields: vec!["cy".into(), "pc".into(), "sp".into(), "a".into(), "f".into()],
        trigger: Trigger::Instruction,
        notes: String::new(),
    }
}

fn bad_source(cpu: Vec<&str>, interrupt: Option<Vec<&str>>) -> ProfileSource {
    ProfileSource {
        name: "bad".into(),
        description: "bad profile".into(),
        trigger: Trigger::Instruction,
        cpu: Some(LayerSelection::Multiple(cpu.into_iter().map(String::from).collect())),
        ppu: None,
        apu: None,
        timer: None,
        interrupt: interrupt.map(|v| LayerSelection::Multiple(v.into_iter().map(String::from).collect())),
        serial: None,
        memory: vec![],
    }
}

#[test]
fn integration_header_validation() {
    let mut h = test_header();
    h._header = false;
    assert!(h.validate().is_err());

    let mut h = test_header();
    h.fields.clear();
    assert!(h.validate().is_err());

    let mut h = test_header();
    h.fields = vec!["pc".into()]; // missing cy
    assert!(h.validate().is_err());
}

#[test]
fn profile_rejects_unknown_field() {
    let result = Profile::from_source(&bad_source(vec!["pc", "bogus_field"], None));
    assert!(result.is_err());
}

#[test]
fn profile_rejects_duplicate_field() {
    let result = Profile::from_source(&bad_source(vec!["pc", "a"], Some(vec!["a"])));
    assert!(result.is_err());
}

#[test]
fn coleco_and_msx1_share_the_ti_vdp_line() {
    for id in ["coleco", "msx1"] {
        let sys = gbtrace::system::system(id).unwrap();
        assert_eq!(sys.isa.id, "z80", "{id}");
        // Same shared z80 + ti-vdp catalogue as sg1000.
        assert!(sys.lookup_field("wz").is_some(), "{id}");
        assert!(sys.lookup_field("reg7").is_some(), "{id}");
        let cond = gbtrace::system::parse_condition_for("vblank starts", &sys).unwrap();
        assert!(matches!(cond, gbtrace::query::Condition::FieldChangesTo { .. }), "{id}");
    }
}

#[test]
fn header_validation_messages() {
    let h = test_header();
    assert!(h.validate().is_ok());
    let mut h = test_header();
    h.fields = vec!["pc".into()];
    match h.validate() {
        Err(e) => assert_eq!(e.message(), "fields must contain 'cy'"),
        Ok(_) => panic!("expected an error"),
    }
}

#[test]
fn system_registry_refuses_unknown_machines() {
    assert!(gbtrace::system::system("n64").is_none());
    let sys = gbtrace::system::system("sg1000").unwrap();
    assert_eq!(sys.id, "sg1000");
    assert!(sys.lookup_field("pc").is_some());
    assert!(sys.lookup_field("ly").is_none());
    // A phrase the machine does not name falls back to the general syntax.
    let cond = gbtrace::system::parse_condition_for("line changes", &sys).unwrap();
    assert!(matches!(cond, gbtrace::query::Condition::FieldChanges { .. }));
}

fn source(trigger: Trigger, cpu: Option<LayerSelection>, ppu: Option<LayerSelection>) -> ProfileSource {
    ProfileSource {
        name: "test".into(),
        description: "test".into(),
        trigger,
        cpu,
        ppu,
        apu: None,
        timer: None,
        interrupt: None,
        serial: None,
        memory: vec![],
    }
}

#[test]
fn profile_rejects_unknown_layer() {
    let src = source(Trigger::Instruction, Some(LayerSelection::Single("bogus_layer".into())), None);
    let result = Profile::from_source(&src);
    assert!(result.is_err());
}

#[test]
fn profile_layer_selection_variants() {
    // Bool true = all layers
    let p = Profile::from_source(&source(Trigger::Instruction, Some(LayerSelection::Bool(true)), None)).unwrap();
    assert!(p.fields.contains(&"pc".to_string()));
    assert!(p.fields.contains(&"ime".to_string()));
    assert!(p.fields.contains(&"mcycles".to_string()));

    // Single layer string
    let p = Profile::from_source(&source(
        Trigger::Instruction,
        Some(LayerSelection::Single("registers".into())),
        None,
    ))
    .unwrap();
    assert!(p.fields.contains(&"pc".to_string()));
    assert!(!p.fields.contains(&"mcycles".to_string()));

    // Multiple layers
    let p = Profile::from_source(&source(
        Trigger::Tcycle,
        None,
        Some(LayerSelection::Multiple(vec!["registers".into(), "output".into()])),
    ))
    .unwrap();
    assert!(p.fields.contains(&"lcdc".to_string()));
    assert!(p.fields.contains(&"pix".to_string()));
    assert!(!p.fields.contains(&"oam0_x".to_string()));
    assert!(!p.fields.contains(&"vram_addr".to_string()));
}

#[test]
fn integration_entry_hex_formatting() {
    let mut e = TraceEntry::new();
    e.set_u8("a", 0x0F);
    e.set_u8("f", 0x00);
    e.set_u16("pc", 0x0100);
    e.set_u16("sp", 0xFFFF);
    e.set_bool("ime", true);

    assert!(matches!(e.get("a"), Some(FieldValue::Text(s)) if s == "0x0F"));
    assert!(matches!(e.get("f"), Some(FieldValue::Text(s)) if s == "0x00"));
    assert!(matches!(e.get("pc"), Some(FieldValue::Text(s)) if s == "0x0100"));
    assert!(matches!(e.get("sp"), Some(FieldValue::Text(s)) if s == "0xFFFF"));
    assert!(matches!(e.get("ime"), Some(FieldValue::Bool(true))));
}

#[test]
fn profile_fields_start_with_the_cycle_count() {
    let p = Profile::from_source(&source(Trigger::Instruction, Some(LayerSelection::Single("registers".into())), None))
        .unwrap();
    assert_eq!(p.fields[0], "cy");
    assert!(p.fields.contains(&"pc".to_string()));
    // nothing selected still captures the cycle count
    let p = Profile::from_source(&source(Trigger::Instruction, None, None)).unwrap();
    assert_eq!(p.fields, vec!["cy".to_string()]);
}
