use molview::number::Decimal;
use molview::parser::{
    parse, parse_compound, Atom, Bond, BondTopology, BondType, Compound, ParseError, Position,
};
use molview::text::split;

const TWO_HYDROGENS: &str = "783
                -OEChem-02172615072D

            2  1  0     0  0  0  0  0  0999 V2000
            2.0000    0.0000    0.0000 H   0  0  0  0  0  0  0  0  0  0  0  0
            3.0000    0.0000    0.0000 H   0  0  0  0  0  0  0  0  0  0  0  0
            1  2  1  0  0  0  0
            M  END
        ";

fn at(x: i64) -> Position {
    Position {
        x: Decimal::new(x, 4),
        y: Decimal::new(0, 4),
        z: Decimal::new(0, 4),
    }
}

fn two_hydrogens() -> Compound {
    Compound {
        moniker: String::new(),
        iupac_name: String::new(),
        is_chiral: false,
        atoms: vec![
            Atom {
                position: at(20000),
                element: "H".to_string(),
            },
            Atom {
                position: at(30000),
                element: "H".to_string(),
            },
        ],
        bonds: vec![Bond {
            src_index: 0,
            dst_index: 1,
            bond_type: BondType::Single,
            topology: BondTopology::RingOrChain,
        }],
    }
}

#[test]
fn compound_test_parser() {
    let expected = Ok(two_hydrogens());
    assert!(parse_compound(TWO_HYDROGENS) == expected);
}

#[test]
fn parser_test_parser() {
    let expected = Ok(two_hydrogens());
    assert!(parse_compound(TWO_HYDROGENS) == expected);
}

#[test]
fn two_hydrogens_counts_and_bond() {
    let c = parse_compound(TWO_HYDROGENS).unwrap();
    assert_eq!(c.atoms.len(), 2);
    assert_eq!(c.bonds.len(), 1);
    assert_eq!(
        c.bonds[0],
        Bond {
            src_index: 0,
            dst_index: 1,
            bond_type: BondType::Single,
            topology: BondTopology::RingOrChain,
        }
    );
    assert!(!c.is_chiral);
}

fn record(counts: &str, atoms: &[&str], bonds: &[&str], tail: &[&str]) -> String {
    let mut lines: Vec<String> = vec!["name".to_string(), "header".to_string(), String::new()];
    lines.push(counts.to_string());
    for a in atoms {
        lines.push(a.to_string());
    }
    for b in bonds {
        lines.push(b.to_string());
    }
    for t in tail {
        lines.push(t.to_string());
    }
    lines.join("\n")
}

const ATOM_C: &str = "   -1.5000    0.2500   10.0000 C   0  0";
const ATOM_O: &str = "    0.0000   -0.7500    1.0000 O   0  0";

#[test]
fn chiral_flag_and_all_bond_codes() {
    let bonds = [
        "  1  2  1  0  0  0  0",
        "  1  2  2  0  0  1  0",
        "  1  2  3  0  0  2  0",
        "  2  1  4  0  0  3  0",
        "  2  1  5  0  0  0  0",
        "  2  1  6  0  0  0  0",
        "  2  1  7  0  0  0  0",
        "  2  1  8  0  0  0  0",
    ];
    let text = record("  2  8  0  1  0", &[ATOM_C, ATOM_O], &bonds, &["M  END"]);
    let c = parse_compound(&text).unwrap();
    assert!(c.is_chiral);
    let types: Vec<BondType> = c.bonds.iter().map(|b| b.bond_type).collect();
    assert_eq!(
        types,
        vec![
            BondType::Single,
            BondType::Double,
            BondType::Triple,
            BondType::Aromatic,
            BondType::SingleOrDouble,
            BondType::SingleOrAromatic,
            BondType::DoubleOrAromatic,
            BondType::Any,
        ]
    );
    assert_eq!(c.bonds[1].topology, BondTopology::Ring);
    assert_eq!(c.bonds[2].topology, BondTopology::Chain);
    assert_eq!(c.bonds[3].topology, BondTopology::RingOrChain);
    assert_eq!(c.bonds[3].src_index, 1);
    assert_eq!(c.bonds[3].dst_index, 0);
    assert_eq!(
        c.atoms[0].position,
        Position {
            x: Decimal::new(-15000, 4),
            y: Decimal::new(2500, 4),
            z: Decimal::new(100000, 4),
        }
    );
    assert_eq!(c.atoms[1].element, "O");
}

#[test]
fn tagged_properties() {
    let tail = [
        "M  END",
        "> <PUBCHEM_IUPAC_NAME>",
        "oxidanylmethane",
        "",
        "> <PUBCHEM_IUPAC_TRADITIONAL_NAME>",
        "methanol",
        "",
        "$$$$",
    ];
    let text = record("  2  0  0  0  0", &[ATOM_C, ATOM_O], &[], &tail);
    let c = parse_compound(&text).unwrap();
    assert_eq!(c.iupac_name, "oxidanylmethane");
    assert_eq!(c.moniker, "methanol");
}

#[test]
fn tag_right_after_the_bonds_is_read() {
    let text = record("  1  0  0  0  0", &[ATOM_C], &[], &["> <PUBCHEM_IUPAC_NAME>", "methane"]);
    let c = parse_compound(&text).unwrap();
    assert_eq!(c.iupac_name, "methane");
    let text = record("  0  0  0  0  0", &[], &[], &["> <PUBCHEM_IUPAC_NAME>", "nothing"]);
    let c = parse_compound(&text).unwrap();
    assert_eq!(c.iupac_name, "nothing");
}

#[test]
fn later_tag_overrides_earlier() {
    let tail = [
        "> <PUBCHEM_IUPAC_TRADITIONAL_NAME>",
        "first",
        "> <PUBCHEM_IUPAC_TRADITIONAL_NAME>",
        "second",
    ];
    let text = record("  1  0  0  0  0", &[ATOM_C], &[], &tail);
    let c = parse_compound(&text).unwrap();
    assert_eq!(c.moniker, "second");
    assert_eq!(c.iupac_name, "");
}

#[test]
fn tag_on_the_last_line_is_missing_value() {
    let text = record("  1  0  0  0  0", &[ATOM_C], &[], &["M  END", "> <PUBCHEM_IUPAC_NAME>"]);
    assert_eq!(parse_compound(&text), Err(ParseError::MissingValue));
}

#[test]
fn missing_counts_line() {
    assert_eq!(parse_compound("a\nb\nc"), Err(ParseError::MissingValue));
    assert_eq!(parse_compound(""), Err(ParseError::MissingValue));
}

#[test]
fn missing_chirality_field() {
    let text = record("  1  0  0", &[ATOM_C], &[], &[]);
    assert_eq!(parse_compound(&text), Err(ParseError::MissingValue));
}

#[test]
fn invalid_counts() {
    let text = record("  x  0  0  0", &[ATOM_C], &[], &[]);
    assert_eq!(parse_compound(&text), Err(ParseError::InvalidValue));
    let text = record("  1  0  0  256", &[ATOM_C], &[], &[]);
    assert_eq!(parse_compound(&text), Err(ParseError::InvalidValue));
}

#[test]
fn too_few_atom_lines() {
    let text = record("  3  0  0  0  0", &[ATOM_C, ATOM_O], &[], &[]);
    assert_eq!(parse_compound(&text), Err(ParseError::MissingValue));
}

#[test]
fn invalid_coordinate() {
    let text = record("  1  0  0  0  0", &["  1.0  abc  2.0 C"], &[], &[]);
    assert_eq!(parse_compound(&text), Err(ParseError::InvalidValue));
}

#[test]
fn missing_element() {
    let text = record("  1  0  0  0  0", &["  1.0  0.0  2.0"], &[], &[]);
    assert_eq!(parse_compound(&text), Err(ParseError::MissingValue));
}

#[test]
fn bond_atom_numbers_out_of_range() {
    let zero = record("  2  1  0  0  0", &[ATOM_C, ATOM_O], &["  0  1  1  0  0  0"], &[]);
    assert_eq!(parse_compound(&zero), Err(ParseError::InvalidValue));
    let past = record("  2  1  0  0  0", &[ATOM_C, ATOM_O], &["  1  3  1  0  0  0"], &[]);
    assert_eq!(parse_compound(&past), Err(ParseError::InvalidValue));
}

#[test]
fn bond_without_topology_field() {
    let text = record("  2  1  0  0  0", &[ATOM_C, ATOM_O], &["  1  2  1  0  0"], &[]);
    assert_eq!(parse_compound(&text), Err(ParseError::MissingValue));
}

#[test]
fn error_messages() {
    assert_eq!(ParseError::MissingValue.message(), "Missing value");
    assert_eq!(ParseError::InvalidValue.message(), "Invalid value");
}

#[test]
fn split_keeps_or_drops_empty_pieces() {
    assert_eq!(split("a\n\nb", '\n', false), vec!["a", "", "b"]);
    assert_eq!(split("  a  b ", ' ', true), vec!["a", "b"]);
    assert_eq!(split("", ' ', false), vec![""]);
    assert!(split("   ", ' ', true).is_empty());
}

#[test]
fn parse_reads_fields() {
    let fields = split("12 +7 x 0.5 -3", ' ', true);
    assert_eq!(parse::<usize>(&fields, 0), Ok(12));
    assert_eq!(parse::<usize>(&fields, 1), Ok(7));
    assert_eq!(parse::<usize>(&fields, 2), Err(ParseError::InvalidValue));
    assert_eq!(parse::<usize>(&fields, 9), Err(ParseError::MissingValue));
    assert_eq!(parse::<String>(&fields, 2), Ok("x".to_string()));
    assert_eq!(parse::<Decimal>(&fields, 3), Ok(Decimal::new(5, 1)));
    assert_eq!(parse::<Decimal>(&fields, 4), Ok(Decimal::new(-3, 0)));
    assert_eq!(parse::<u8>(&fields, 0), Ok(12));
}
