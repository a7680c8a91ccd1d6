use molview::parser::parse_compound;
use molview::shape::{
    compound_to_shape, BondStyle, ElementInfo, MapError, PropertyTable, Ratio, Shape,
};

const WATER: &str = "962
  header

  3  2  0  0  0
    0.0000    0.0000    0.0000 O   0  0
    0.9600    0.0000    0.0000 H   0  0
   -0.2400    0.9300    0.0000 H   0  0
  1  2  1  0  0  0
  1  3  1  0  0  0
M  END
";

fn table() -> PropertyTable<[f32; 3]> {
    let mut t = PropertyTable::new();
    t.insert(
        "H".to_string(),
        ElementInfo {
            waal_radius: 120,
            covalent_radius: [32, -1, -1],
            color: [1.0, 1.0, 1.0],
        },
    );
    t.insert(
        "O".to_string(),
        ElementInfo {
            waal_radius: 152,
            covalent_radius: [63, 57, 53],
            color: [1.0, 0.0, 0.0],
        },
    );
    t.insert(
        "X".to_string(),
        ElementInfo {
            waal_radius: 0,
            covalent_radius: [-1, 90, -1],
            color: [0.0, 0.0, 0.0],
        },
    );
    t
}

fn style() -> BondStyle<[f32; 3]> {
    BondStyle {
        color: [0.67, 0.67, 0.67],
        radius: Ratio { num: 1, den: 100 },
    }
}

#[test]
fn spheres_then_cylinders_in_order() {
    let c = parse_compound(WATER).unwrap();
    let shapes = compound_to_shape(&c, &table(), style()).unwrap();
    assert_eq!(shapes.len(), 5);
    assert!(shapes[..3].iter().all(|s| matches!(s, Shape::Sphere { .. })));
    assert!(shapes[3..].iter().all(|s| matches!(s, Shape::Cylinder { .. })));
    assert_eq!(
        shapes[0],
        Shape::Sphere {
            origin: c.atoms[0].position,
            color: [1.0, 0.0, 0.0],
            radius: Ratio { num: 63, den: 63 },
        }
    );
    assert_eq!(
        shapes[1],
        Shape::Sphere {
            origin: c.atoms[1].position,
            color: [1.0, 1.0, 1.0],
            radius: Ratio { num: 32, den: 63 },
        }
    );
    assert_eq!(
        shapes[4],
        Shape::Cylinder {
            start: c.atoms[0].position,
            end: c.atoms[2].position,
            color: [0.67, 0.67, 0.67],
            radius: Ratio { num: 1, den: 100 },
        }
    );
}

#[test]
fn max_radius_counts_single_bond_radii_only() {
    assert_eq!(table().max_covalent_radius(), 63);
    let empty: PropertyTable<u8> = PropertyTable::new();
    assert_eq!(empty.max_covalent_radius(), 0);
}

#[test]
fn insert_replaces_an_entry() {
    let mut t = table();
    t.insert(
        "H".to_string(),
        ElementInfo {
            waal_radius: 1,
            covalent_radius: [70, -1, -1],
            color: [0.5, 0.5, 0.5],
        },
    );
    assert_eq!(t.get(&"H".to_string()).unwrap().covalent_radius, [70, -1, -1]);
    assert_eq!(t.max_covalent_radius(), 70);
    assert!(t.get(&"h".to_string()).is_none());
}

#[test]
fn unknown_element_is_reported() {
    let text = WATER.replace(" O   0  0", " Zz  0  0");
    let c = parse_compound(&text).unwrap();
    assert_eq!(
        compound_to_shape(&c, &table(), style()),
        Err(MapError::UnknownElement { atom: 0 })
    );
}

#[test]
fn undefined_radius_is_reported() {
    let text = WATER.replace("0.9600    0.0000    0.0000 H", "0.9600    0.0000    0.0000 X");
    let c = parse_compound(&text).unwrap();
    assert_eq!(
        compound_to_shape(&c, &table(), style()),
        Err(MapError::UndefinedRadius { atom: 1 })
    );
}

#[test]
fn sphere_radii_lie_in_unit_interval() {
    let c = parse_compound(WATER).unwrap();
    let shapes = compound_to_shape(&c, &table(), style()).unwrap();
    for s in &shapes[..3] {
        match s {
            Shape::Sphere { radius, .. } => assert!(0 < radius.num && radius.num <= radius.den),
            _ => panic!("expected a sphere"),
        }
    }
}
