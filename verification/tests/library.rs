use planet_sim::color::{ColorError, Rgb, parse_color};
use planet_sim::input::selection::next_selection;
use planet_sim::plugins::{InputSystems, SimulationSystems, UIUpdates};
use planet_sim::resources::molecule_table::{Molecule, MoleculeTable};
use planet_sim::resources::periodic_table::{Chemical, PeriodicTable};
use planet_sim::ui::sidebar_panels::resource_rows;
use planet_sim::world::celestial::{intensity_data, uv_debug_texture_data};
use planet_sim::world::chemistry::{ChemicalComposition, Element};

fn rgb(r: u8, g: u8, b: u8) -> Rgb {
    Rgb { r, g, b }
}

////////////////////////////////////////
// COLORS
////////////////////////////////////////

#[test]
fn color_short_and_long_forms() {
    assert_eq!(parse_color("#F00"), Ok(rgb(0xFF, 0x00, 0x00)));
    assert_eq!(parse_color("#DDA0DD"), Ok(rgb(0xDD, 0xA0, 0xDD)));
    assert_eq!(parse_color("#dda0dd"), Ok(rgb(0xDD, 0xA0, 0xDD)));
    assert_eq!(parse_color("#0FFF"), Ok(rgb(0x00, 0xFF, 0xFF)));
    assert_eq!(parse_color("#F0FFFF80"), Ok(rgb(0xF0, 0xFF, 0xFF)));
    assert_eq!(parse_color("#1a2"), Ok(rgb(0x11, 0xAA, 0x22)));
}

#[test]
fn color_errors() {
    assert_eq!(parse_color(""), Err(ColorError::Empty));
    assert_eq!(parse_color("F00"), Err(ColorError::InvalidFormat));
    assert_eq!(parse_color("#F0"), Err(ColorError::InvalidFormat));
    assert_eq!(parse_color("#FF00000"), Err(ColorError::InvalidFormat));
    assert_eq!(parse_color("#GG0000"), Err(ColorError::InvalidDigit));
    assert_eq!(parse_color("#F0G"), Err(ColorError::InvalidDigit));
    assert_eq!(parse_color("#FF0000ZZ"), Err(ColorError::InvalidDigit));
}

#[test]
fn color_error_messages() {
    assert_eq!(ColorError::Empty.message(), "Invalid color - message: cannot parse hex color from empty string");
    assert_eq!(ColorError::InvalidFormat.message(), "Invalid color - message: invalid hexadecimal color format");
    assert_eq!(ColorError::InvalidDigit.message(), "Invalid color - message: invalid hexadecimal digit");
}

#[test]
fn color_black() {
    assert_eq!(Rgb::black(), rgb(0, 0, 0));
}

////////////////////////////////////////
// SELECTION
////////////////////////////////////////

#[test]
fn selection_first_press_selects_first_body() {
    let bodies = vec![7, 3, 9];
    assert_eq!(next_selection(&bodies, None, false, false), Some(0));
    assert_eq!(next_selection(&bodies, None, true, false), Some(0));
}

#[test]
fn selection_left_and_right_wrap() {
    let bodies = vec![7, 3, 9];
    assert_eq!(next_selection(&bodies, Some(7), true, false), Some(2));
    assert_eq!(next_selection(&bodies, Some(3), true, false), Some(0));
    assert_eq!(next_selection(&bodies, Some(9), false, true), Some(0));
    assert_eq!(next_selection(&bodies, Some(3), false, true), Some(2));
    // Left wins when both are pressed; nothing pressed keeps the selection.
    assert_eq!(next_selection(&bodies, Some(3), true, true), Some(0));
    assert_eq!(next_selection(&bodies, Some(3), false, false), None);
}

#[test]
fn selection_unknown_body_counts_as_first() {
    let bodies = vec![7, 3, 9];
    assert_eq!(next_selection(&bodies, Some(42), false, true), Some(1));
    assert_eq!(next_selection(&bodies, Some(42), true, false), Some(2));
}

#[test]
fn selection_right_then_left_returns() {
    let bodies = vec![4, 8, 15, 16, 23];
    for i in 0..bodies.len() {
        let r = next_selection(&bodies, Some(bodies[i]), false, true).unwrap();
        assert_eq!(next_selection(&bodies, Some(bodies[r]), true, false), Some(i));
        let l = next_selection(&bodies, Some(bodies[i]), true, false).unwrap();
        assert_eq!(next_selection(&bodies, Some(bodies[l]), false, true), Some(i));
    }
}

////////////////////////////////////////
// SIDEBAR ROWS
////////////////////////////////////////

#[test]
fn resource_rows_pairs() {
    assert_eq!(resource_rows(&vec![true, false, true, true]), vec![vec![0, 2], vec![3]]);
    assert_eq!(resource_rows(&vec![true, true, true, true]), vec![vec![0, 1], vec![2, 3]]);
    assert_eq!(resource_rows(&vec![true, true, false, false, true]), vec![vec![0, 1], vec![4]]);
}

#[test]
fn resource_rows_empty() {
    let none: Vec<Vec<usize>> = vec![vec![]];
    assert_eq!(resource_rows(&vec![]), none);
    assert_eq!(resource_rows(&vec![false, false]), none);
}

#[test]
fn resource_rows_cover_available() {
    let available = vec![false, true, true, false, true, true, true];
    let rows = resource_rows(&available);
    let flat: Vec<usize> = rows.concat();
    assert_eq!(flat, vec![1, 2, 4, 5, 6]);
    for row in &rows[..rows.len() - 1] {
        assert_eq!(row.len(), 2);
    }
}

////////////////////////////////////////
// CHEMISTRY AND TABLES
////////////////////////////////////////

fn chemical(name: &str, symbol: &str, id: usize, color: Rgb) -> Chemical<f32> {
    Chemical { name: name.to_string(), symbol: symbol.to_string(), id, properties: id as f32 * 1.5, color }
}

fn table() -> PeriodicTable<f32> {
    PeriodicTable {
        chemical: vec![
            chemical("Hydrogen", "H", 1, rgb(255, 255, 255)),
            chemical("Oxygen", "O", 8, rgb(255, 0, 0)),
            chemical("Ozone", "O3", 8, rgb(0, 0, 255)),
        ],
    }
}

#[test]
fn periodic_table_lookup() {
    let t = table();
    assert_eq!(t.get_element(8).map(|c| c.name.as_str()), Some("Oxygen"));
    assert!(t.get_element(2).is_none());
    let oxygen = Element { element: 8, ratio: 0.5f32 };
    let helium = Element { element: 2, ratio: 0.5f32 };
    assert_eq!(t.get_color(&oxygen), rgb(255, 0, 0));
    assert_eq!(t.get_color(&helium), rgb(0, 0, 0));
    assert_eq!(t.get_name(&oxygen), "Oxygen");
    assert_eq!(t.get_name(&helium), "Unknown element");
}

#[test]
fn periodic_table_default_element() {
    let d = table().create_default_element();
    assert_eq!(d.name, "UNKNOWN ELEMENT");
    assert_eq!(d.symbol, "?");
    assert_eq!(d.id, 0);
    assert_eq!(d.color, rgb(0, 0, 0));
    assert_eq!(d.properties, 0.0);
}

fn water() -> Molecule<f32> {
    Molecule {
        name: "Water".to_string(),
        formula: "H2O".to_string(),
        id: 1,
        components: vec![Element { element: 1, ratio: 0.66 }, Element { element: 8, ratio: 0.34 }],
        color: rgb(0, 0, 255),
    }
}

#[test]
fn molecule_table_lookup() {
    let t = MoleculeTable { molecule: vec![water()] };
    assert_eq!(t.get_molecule(1).map(|m| m.formula.as_str()), Some("H2O"));
    assert!(t.get_molecule(2).is_none());
}

#[test]
fn composition_find_and_pairs() {
    let c = ChemicalComposition {
        components: vec![
            Element { element: 8, ratio: 0.25f32 },
            Element { element: 1, ratio: 0.75 },
            Element { element: 8, ratio: 0.5 },
        ],
    };
    assert_eq!(c.find_element(8).map(|e| e.ratio), Some(0.25));
    assert!(c.find_element(6).is_none());
    assert_eq!(c.component_pairs(&water()), Some(vec![(0.75, 0.66), (0.25, 0.34)]));
    let partial = ChemicalComposition { components: vec![Element { element: 1, ratio: 1.0f32 }] };
    assert_eq!(partial.component_pairs(&water()), None);
}

////////////////////////////////////////
// TEXTURES
////////////////////////////////////////

#[test]
fn intensity_data_layout() {
    let evaluate = |i: usize, j: usize| [i as u8, j as u8, 7, 255];
    let data = intensity_data(2, 3, &evaluate);
    assert_eq!(data.len(), 2 * 3 * 4);
    for i in 0..2 {
        for j in 0..3 {
            let k = (j * 2 + i) * 4;
            assert_eq!(&data[k..k + 4], &[i as u8, j as u8, 7, 255]);
        }
    }
}

#[test]
fn intensity_data_empty_image() {
    let evaluate = |_: usize, _: usize| [1u8, 2, 3, 4];
    assert!(intensity_data(0, 5, &evaluate).is_empty());
}

#[test]
fn debug_texture_rows_rotate() {
    let data = uv_debug_texture_data();
    assert_eq!(data.len(), 256);
    assert_eq!(&data[0..4], &[255, 102, 159, 255]);
    assert_eq!(&data[32..36], &[236, 102, 255, 255]);
    assert_eq!(&data[252..256], &[255, 102, 159, 255]);
    let mut palette: [u8; 32] = [
        255, 102, 159, 255, 255, 159, 102, 255, 236, 255, 102, 255, 121, 255, 102, 255, 102, 255, 198, 255, 102, 198,
        255, 255, 121, 102, 255, 255, 236, 102, 255, 255,
    ];
    let mut expected = [0u8; 256];
    for y in 0..8 {
        expected[y * 32..y * 32 + 32].copy_from_slice(&palette);
        palette.rotate_right(4);
    }
    assert_eq!(data, expected.to_vec());
}

////////////////////////////////////////
// LABELS
////////////////////////////////////////

#[test]
fn schedule_labels_are_distinct() {
    assert_ne!(InputSystems::Mouse, InputSystems::Keyboard);
    assert_ne!(SimulationSystems::OrbitalPhysics, SimulationSystems::ThermalPhysics);
    assert_ne!(UIUpdates::PerFrame, UIUpdates::OnSelectionChange);
}
