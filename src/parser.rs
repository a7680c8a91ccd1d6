//! Reader for V2000 structure records: a header, a counts line, atom lines,
//! bond lines, and a trailing block of tagged properties.
use vstd::prelude::*;

use crate::number::{Decimal, decimal_view, parse_decimal, unsigned_at_most, unsigned_value};
use crate::text::{chars_of, fields_of, lines_of, split, views};

verus! {

/// Why a record could not be read.
#[derive(Clone, Copy, Debug, PartialEq, Eq)]
pub enum ParseError {
    /// A line or a field that the layout asks for is not there.
    MissingValue,
    /// A field is there but does not hold a value of the expected kind.
    InvalidValue,
}

impl ParseError {
    /// A short description of the error.
    pub fn message(&self) -> (r: String)
        ensures
            *self is MissingValue ==> r@ == "Missing value"@,
            *self is InvalidValue ==> r@ == "Invalid value"@,
    {
        match self {
            ParseError::MissingValue => "Missing value".to_owned(),
            ParseError::InvalidValue => "Invalid value".to_owned(),
        }
    }
}

/// A value that a field of a record can hold.
pub trait FieldValue: Sized {
    /// The field text writes a value of this type.
    spec fn accepts(field: Seq<char>) -> bool;

    /// `v` is the value that the field text writes.
    spec fn reads_as(field: Seq<char>, v: Self) -> bool;

    fn from_field(field: &String) -> (r: Option<Self>)
        ensures
            match r {
                Some(v) => Self::accepts(field@) && Self::reads_as(field@, v),
                None => !Self::accepts(field@),
            },
    ;
}

impl FieldValue for usize {
    open spec fn accepts(field: Seq<char>) -> bool {
        unsigned_value(field) is Some && unsigned_value(field)->0 <= usize::MAX
    }

    open spec fn reads_as(field: Seq<char>, v: usize) -> bool {
        unsigned_value(field) == Some(v as nat)
    }

    fn from_field(field: &String) -> (r: Option<usize>) {
        let cs = chars_of(field.as_str());
        unsigned_at_most(&cs, usize::MAX)
    }
}

impl FieldValue for u8 {
    open spec fn accepts(field: Seq<char>) -> bool {
        unsigned_value(field) is Some && unsigned_value(field)->0 <= u8::MAX
    }

    open spec fn reads_as(field: Seq<char>, v: u8) -> bool {
        unsigned_value(field) == Some(v as nat)
    }

    fn from_field(field: &String) -> (r: Option<u8>) {
        let cs = chars_of(field.as_str());
        match unsigned_at_most(&cs, 255) {
            Some(v) => Some(v as u8),
            None => None,
        }
    }
}

impl FieldValue for String {
    open spec fn accepts(field: Seq<char>) -> bool {
        true
    }

    open spec fn reads_as(field: Seq<char>, v: String) -> bool {
        v@ == field
    }

    fn from_field(field: &String) -> (r: Option<String>) {
        Some(field.clone())
    }
}

impl FieldValue for Decimal {
    open spec fn accepts(field: Seq<char>) -> bool {
        decimal_view(field) is Some
    }

    open spec fn reads_as(field: Seq<char>, v: Decimal) -> bool {
        decimal_view(field) == Some(v)
    }

    fn from_field(field: &String) -> (r: Option<Decimal>) {
        let cs = chars_of(field.as_str());
        parse_decimal(&cs)
    }
}

/// Reads entry `index` of `v` as a `T`.
pub fn parse<T: FieldValue>(v: &Vec<String>, index: usize) -> (r: Result<T, ParseError>)
    ensures
        match r {
            Ok(x) => index < v@.len() && T::accepts(v@[index as int]@) && T::reads_as(
                v@[index as int]@,
                x,
            ),
            Err(ParseError::MissingValue) => index >= v@.len(),
            Err(ParseError::InvalidValue) => index < v@.len() && !T::accepts(v@[index as int]@),
        },
{
    if index >= v.len() {
        return Err(ParseError::MissingValue);
    }
    match T::from_field(&v[index]) {
        Some(x) => Ok(x),
        None => Err(ParseError::InvalidValue),
    }
}

/// The position of an atom, in the record's units, each coordinate exact.
#[derive(Clone, Copy, Debug, PartialEq, Eq)]
pub struct Position {
    pub x: Decimal,
    pub y: Decimal,
    pub z: Decimal,
}

#[derive(Clone, Debug, PartialEq, Eq)]
pub struct Atom {
    pub position: Position,
    /// Chemical symbol, as the record writes it.
    pub element: String,
}

pub struct AtomView {
    pub position: Position,
    pub element: Seq<char>,
}

impl View for Atom {
    type V = AtomView;

    open spec fn view(&self) -> AtomView {
        AtomView { position: self.position, element: self.element@ }
    }
}

#[derive(Clone, Copy, Debug, PartialEq, Eq)]
pub enum BondType {
    Single,
    Double,
    Triple,
    Aromatic,
    SingleOrDouble,
    SingleOrAromatic,
    DoubleOrAromatic,
    Any,
}

#[derive(Clone, Copy, Debug, PartialEq, Eq)]
pub enum BondTopology {
    RingOrChain,
    Ring,
    Chain,
}

/// A bond between two atoms, given by their 0-based positions in the atom list.
#[derive(Clone, Copy, Debug, PartialEq, Eq)]
pub struct Bond {
    pub src_index: usize,
    pub dst_index: usize,
    pub bond_type: BondType,
    pub topology: BondTopology,
}

/// A parsed structure record.
#[derive(Clone, Debug, PartialEq, Eq)]
pub struct Compound {
    pub moniker: String,
    pub iupac_name: String,
    pub is_chiral: bool,
    pub atoms: Vec<Atom>,
    pub bonds: Vec<Bond>,
}

pub struct CompoundView {
    pub moniker: Seq<char>,
    pub iupac_name: Seq<char>,
    pub is_chiral: bool,
    pub atoms: Seq<AtomView>,
    pub bonds: Seq<Bond>,
}

pub open spec fn atom_views(atoms: Seq<Atom>) -> Seq<AtomView> {
    atoms.map_values(|a: Atom| a@)
}

impl View for Compound {
    type V = CompoundView;

    open spec fn view(&self) -> CompoundView {
        CompoundView {
            moniker: self.moniker@,
            iupac_name: self.iupac_name@,
            is_chiral: self.is_chiral,
            atoms: atom_views(self.atoms@),
            bonds: self.bonds@,
        }
    }
}

impl Compound {
    /// Every bond joins two atoms of the compound.
    pub open spec fn wf(&self) -> bool {
        forall|k: int|
            0 <= k < self.bonds@.len() ==> #[trigger] self.bonds@[k].src_index < self.atoms@.len()
                && self.bonds@[k].dst_index < self.atoms@.len()
    }
}

/// Line of the counts: atom count, bond count, and the chirality flag.
pub const COUNTS_LINE: usize = 3;

/// Field of the counts line that holds the chirality flag.
pub const CHIRAL_FIELD: usize = 3;

/// Field of a bond line that holds the topology code.
pub const TOPOLOGY_FIELD: usize = 5;

pub open spec fn iupac_name_tag() -> Seq<char> {
    "> <PUBCHEM_IUPAC_NAME>"@
}

pub open spec fn moniker_tag() -> Seq<char> {
    "> <PUBCHEM_IUPAC_TRADITIONAL_NAME>"@
}

pub open spec fn bond_type_of(code: nat) -> BondType {
    if code == 1 {
        BondType::Single
    } else if code == 2 {
        BondType::Double
    } else if code == 3 {
        BondType::Triple
    } else if code == 4 {
        BondType::Aromatic
    } else if code == 5 {
        BondType::SingleOrDouble
    } else if code == 6 {
        BondType::SingleOrAromatic
    } else if code == 7 {
        BondType::DoubleOrAromatic
    } else {
        BondType::Any
    }
}

pub open spec fn topology_of(code: nat) -> BondTopology {
    if code == 1 {
        BondTopology::Ring
    } else if code == 2 {
        BondTopology::Chain
    } else {
        BondTopology::RingOrChain
    }
}

/// The fields of line `row`.
pub open spec fn line_fields(lines: Seq<Seq<char>>, row: int) -> Result<Seq<Seq<char>>, ParseError> {
    if 0 <= row < lines.len() {
        Ok(fields_of(lines[row]))
    } else {
        Err(ParseError::MissingValue)
    }
}

/// Field `k` read as an unsigned integer no larger than `max`.
pub open spec fn unsigned_field(f: Seq<Seq<char>>, k: int, max: nat) -> Result<nat, ParseError> {
    if k >= f.len() {
        Err(ParseError::MissingValue)
    } else if unsigned_value(f[k]) is Some && unsigned_value(f[k])->0 <= max {
        Ok(unsigned_value(f[k])->0)
    } else {
        Err(ParseError::InvalidValue)
    }
}

/// Field `k` read as a 1-based atom number among `n_atoms`, given back 0-based.
pub open spec fn atom_number_field(f: Seq<Seq<char>>, k: int, n_atoms: nat) -> Result<
    nat,
    ParseError,
> {
    match unsigned_field(f, k, usize::MAX as nat) {
        Err(e) => Err(e),
        Ok(v) => if 1 <= v <= n_atoms {
            Ok((v - 1) as nat)
        } else {
            Err(ParseError::InvalidValue)
        },
    }
}

pub open spec fn decimal_field(f: Seq<Seq<char>>, k: int) -> Result<Decimal, ParseError> {
    if k >= f.len() {
        Err(ParseError::MissingValue)
    } else if decimal_view(f[k]) is Some {
        Ok(decimal_view(f[k])->0)
    } else {
        Err(ParseError::InvalidValue)
    }
}

pub open spec fn text_field(f: Seq<Seq<char>>, k: int) -> Result<Seq<char>, ParseError> {
    if k >= f.len() {
        Err(ParseError::MissingValue)
    } else {
        Ok(f[k])
    }
}

/// An atom line: x, y, z, then the element symbol; the first failing field decides the error.
#[verifier::opaque]
pub open spec fn atom_at(lines: Seq<Seq<char>>, row: int) -> Result<AtomView, ParseError> {
    match line_fields(lines, row) {
        Err(e) => Err(e),
        Ok(f) => match decimal_field(f, 0) {
            Err(e) => Err(e),
            Ok(x) => match decimal_field(f, 1) {
                Err(e) => Err(e),
                Ok(y) => match decimal_field(f, 2) {
                    Err(e) => Err(e),
                    Ok(z) => match text_field(f, 3) {
                        Err(e) => Err(e),
                        Ok(element) => Ok(
                            AtomView { position: Position { x, y, z }, element },
                        ),
                    },
                },
            },
        },
    }
}

/// A bond line: source and destination atom numbers, the type code, and the
/// topology code; the first failing field decides the error.
#[verifier::opaque]
pub open spec fn bond_at(lines: Seq<Seq<char>>, row: int, n_atoms: nat) -> Result<Bond, ParseError> {
    match line_fields(lines, row) {
        Err(e) => Err(e),
        Ok(f) => match atom_number_field(f, 0, n_atoms) {
            Err(e) => Err(e),
            Ok(src) => match atom_number_field(f, 1, n_atoms) {
                Err(e) => Err(e),
                Ok(dst) => match unsigned_field(f, 2, usize::MAX as nat) {
                    Err(e) => Err(e),
                    Ok(code) => match unsigned_field(f, TOPOLOGY_FIELD as int, usize::MAX as nat) {
                        Err(e) => Err(e),
                        Ok(topo) => Ok(
                            Bond {
                                src_index: src as usize,
                                dst_index: dst as usize,
                                bond_type: bond_type_of(code),
                                topology: topology_of(topo),
                            },
                        ),
                    },
                },
            },
        },
    }
}

/// The atoms of the `n` lines from `first`, or the error of the first line that fails.
pub open spec fn atoms_from(lines: Seq<Seq<char>>, first: int, n: nat) -> Result<
    Seq<AtomView>,
    ParseError,
>
    decreases n,
{
    if n == 0 {
        Ok(Seq::empty())
    } else {
        match atoms_from(lines, first, (n - 1) as nat) {
            Err(e) => Err(e),
            Ok(s) => match atom_at(lines, first + n - 1) {
                Err(e) => Err(e),
                Ok(a) => Ok(s.push(a)),
            },
        }
    }
}

/// The bonds of the `n` lines from `first`, or the error of the first line that fails.
pub open spec fn bonds_from(lines: Seq<Seq<char>>, first: int, n: nat, n_atoms: nat) -> Result<
    Seq<Bond>,
    ParseError,
>
    decreases n,
{
    if n == 0 {
        Ok(Seq::empty())
    } else {
        match bonds_from(lines, first, (n - 1) as nat, n_atoms) {
            Err(e) => Err(e),
            Ok(s) => match bond_at(lines, first + n - 1, n_atoms) {
                Err(e) => Err(e),
                Ok(b) => Ok(s.push(b)),
            },
        }
    }
}

/// The (moniker, IUPAC name) that lines `from .. to` set: the line after a tag
/// line holds its value, a later tag overriding an earlier one.
pub open spec fn tags_in(lines: Seq<Seq<char>>, from: int, to: int) -> Result<
    (Seq<char>, Seq<char>),
    ParseError,
>
    decreases to - from,
{
    if to <= from {
        Ok((Seq::empty(), Seq::empty()))
    } else {
        match tags_in(lines, from, to - 1) {
            Err(e) => Err(e),
            Ok((moniker, iupac)) => {
                let i = to - 1;
                if 0 <= i < lines.len() && (lines[i] == iupac_name_tag() || lines[i]
                    == moniker_tag()) {
                    if i + 1 < lines.len() {
                        if lines[i] == iupac_name_tag() {
                            Ok((moniker, lines[i + 1]))
                        } else {
                            Ok((lines[i + 1], iupac))
                        }
                    } else {
                        Err(ParseError::MissingValue)
                    }
                } else {
                    Ok((moniker, iupac))
                }
            },
        }
    }
}

/// What the lines after the counts line give, for the counts read there.
pub open spec fn body_of(lines: Seq<Seq<char>>, n_atoms: nat, n_bonds: nat, chiral: nat) -> Result<
    CompoundView,
    ParseError,
> {
    match atoms_from(lines, COUNTS_LINE + 1, n_atoms) {
        Err(e) => Err(e),
        Ok(atoms) => match bonds_from(lines, COUNTS_LINE + 1 + n_atoms, n_bonds, n_atoms) {
            Err(e) => Err(e),
            Ok(bonds) => match tags_in(
                lines,
                COUNTS_LINE + 1 + n_atoms + n_bonds,
                lines.len() as int,
            ) {
                Err(e) => Err(e),
                Ok((moniker, iupac_name)) => Ok(
                    CompoundView { moniker, iupac_name, is_chiral: chiral == 1, atoms, bonds },
                ),
            },
        },
    }
}

/// What reading `text` as a structure record gives.
pub open spec fn compound_of(text: Seq<char>) -> Result<CompoundView, ParseError> {
    let lines = lines_of(text);
    match line_fields(lines, COUNTS_LINE as int) {
        Err(e) => Err(e),
        Ok(c) => match unsigned_field(c, 0, usize::MAX as nat) {
            Err(e) => Err(e),
            Ok(n_atoms) => match unsigned_field(c, 1, usize::MAX as nat) {
                Err(e) => Err(e),
                Ok(n_bonds) => match unsigned_field(c, CHIRAL_FIELD as int, u8::MAX as nat) {
                    Err(e) => Err(e),
                    Ok(chiral) => body_of(lines, n_atoms, n_bonds, chiral),
                },
            },
        },
    }
}

fn parse_atom_line(lines: &Vec<String>, row: usize) -> (r: Result<Atom, ParseError>)
    ensures
        match r {
            Ok(a) => atom_at(views(lines@), row as int) == Ok::<AtomView, ParseError>(a@) && row
                < lines@.len(),
            Err(e) => atom_at(views(lines@), row as int) == Err::<AtomView, ParseError>(e),
        },
{
    reveal(atom_at);
    let line: String = match parse(lines, row) {
        Ok(l) => l,
        Err(e) => return Err(e),
    };
    let fields = split(line.as_str(), ' ', true);
    let x: Decimal = match parse(&fields, 0) {
        Ok(v) => v,
        Err(e) => return Err(e),
    };
    let y: Decimal = match parse(&fields, 1) {
        Ok(v) => v,
        Err(e) => return Err(e),
    };
    let z: Decimal = match parse(&fields, 2) {
        Ok(v) => v,
        Err(e) => return Err(e),
    };
    let element: String = match parse(&fields, 3) {
        Ok(v) => v,
        Err(e) => return Err(e),
    };
    Ok(Atom { position: Position { x, y, z }, element })
}

fn atom_number(fields: &Vec<String>, k: usize, n_atoms: usize) -> (r: Result<usize, ParseError>)
    ensures
        match r {
            Ok(v) => atom_number_field(views(fields@), k as int, n_atoms as nat) == Ok::<
                nat,
                ParseError,
            >(v as nat),
            Err(e) => atom_number_field(views(fields@), k as int, n_atoms as nat) == Err::<
                nat,
                ParseError,
            >(e),
        },
{
    let v: usize = match parse(fields, k) {
        Ok(v) => v,
        Err(e) => return Err(e),
    };
    if v < 1 || v > n_atoms {
        return Err(ParseError::InvalidValue);
    }
    Ok(v - 1)
}

fn parse_bond_line(lines: &Vec<String>, row: usize, n_atoms: usize) -> (r: Result<
    Bond,
    ParseError,
>)
    ensures
        match r {
            Ok(b) => bond_at(views(lines@), row as int, n_atoms as nat) == Ok::<Bond, ParseError>(
                b,
            ) && row < lines@.len(),
            Err(e) => bond_at(views(lines@), row as int, n_atoms as nat) == Err::<
                Bond,
                ParseError,
            >(e),
        },
{
    reveal(bond_at);
    let line: String = match parse(lines, row) {
        Ok(l) => l,
        Err(e) => return Err(e),
    };
    let fields = split(line.as_str(), ' ', true);
    let src_index = match atom_number(&fields, 0, n_atoms) {
        Ok(v) => v,
        Err(e) => return Err(e),
    };
    let dst_index = match atom_number(&fields, 1, n_atoms) {
        Ok(v) => v,
        Err(e) => return Err(e),
    };
    let code: usize = match parse(&fields, 2) {
        Ok(v) => v,
        Err(e) => return Err(e),
    };
    let topo: usize = match parse(&fields, TOPOLOGY_FIELD) {
        Ok(v) => v,
        Err(e) => return Err(e),
    };
    let bond_type = match code {
        1 => BondType::Single,
        2 => BondType::Double,
        3 => BondType::Triple,
        4 => BondType::Aromatic,
        5 => BondType::SingleOrDouble,
        6 => BondType::SingleOrAromatic,
        7 => BondType::DoubleOrAromatic,
        _ => BondType::Any,
    };
    let topology = match topo {
        1 => BondTopology::Ring,
        2 => BondTopology::Chain,
        _ => BondTopology::RingOrChain,
    };
    Ok(Bond { src_index, dst_index, bond_type, topology })
}

proof fn lemma_atoms_stay_failed(lines: Seq<Seq<char>>, first: int, i: nat, n: nat)
    requires
        i <= n,
        atoms_from(lines, first, i) is Err,
    ensures
        atoms_from(lines, first, n) == atoms_from(lines, first, i),
    decreases n - i,
{
    if i < n {
        lemma_atoms_stay_failed(lines, first, i, (n - 1) as nat);
    }
}

proof fn lemma_bonds_stay_failed(lines: Seq<Seq<char>>, first: int, i: nat, n: nat, n_atoms: nat)
    requires
        i <= n,
        bonds_from(lines, first, i, n_atoms) is Err,
    ensures
        bonds_from(lines, first, n, n_atoms) == bonds_from(lines, first, i, n_atoms),
    decreases n - i,
{
    if i < n {
        lemma_bonds_stay_failed(lines, first, i, (n - 1) as nat, n_atoms);
    }
}

proof fn lemma_tags_stay_failed(lines: Seq<Seq<char>>, from: int, i: int, n: int)
    requires
        from <= i <= n,
        tags_in(lines, from, i) is Err,
    ensures
        tags_in(lines, from, n) == tags_in(lines, from, i),
    decreases n - i,
{
    if i < n {
        lemma_tags_stay_failed(lines, from, i, n - 1);
    }
}

fn read_atoms(lines: &Vec<String>, n: usize) -> (r: Result<Vec<Atom>, ParseError>)
    ensures
        match r {
            Ok(atoms) => atoms_from(views(lines@), COUNTS_LINE + 1, n as nat) == Ok::<
                Seq<AtomView>,
                ParseError,
            >(atom_views(atoms@)) && atoms@.len() == n && (n > 0 ==> COUNTS_LINE + n
                < lines@.len()),
            Err(e) => atoms_from(views(lines@), COUNTS_LINE + 1, n as nat) == Err::<
                Seq<AtomView>,
                ParseError,
            >(e),
        },
{
    let ghost ls = views(lines@);
    let n_lines = lines.len();
    let mut atoms: Vec<Atom> = Vec::new();
    let mut i: usize = 0;
    proof {
        assert(atom_views(atoms@) =~= Seq::<AtomView>::empty());
    }
    while i < n
        invariant
            i <= n,
            ls == views(lines@),
            n_lines == lines@.len(),
            atoms@.len() == i,
            atoms_from(ls, COUNTS_LINE + 1, i as nat) == Ok::<Seq<AtomView>, ParseError>(
                atom_views(atoms@),
            ),
            i > 0 ==> COUNTS_LINE + i < lines@.len(),
        decreases n - i,
    {
        let row = match i.checked_add(COUNTS_LINE + 1) {
            Some(row) => row,
            None => {
                proof {
                    reveal(atom_at);
                    assert(atom_at(ls, COUNTS_LINE + 1 + i) == Err::<AtomView, ParseError>(
                        ParseError::MissingValue,
                    ));
                    lemma_atoms_stay_failed(ls, COUNTS_LINE + 1, (i + 1) as nat, n as nat);
                }
                return Err(ParseError::MissingValue);
            },
        };
        let atom = match parse_atom_line(lines, row) {
            Ok(a) => a,
            Err(e) => {
                proof {
                    lemma_atoms_stay_failed(ls, COUNTS_LINE + 1, (i + 1) as nat, n as nat);
                }
                return Err(e);
            },
        };
        let ghost prev = atoms@;
        atoms.push(atom);
        proof {
            assert(atom_views(atoms@) =~= atom_views(prev).push(atom@));
        }
        i += 1;
    }
    Ok(atoms)
}

fn read_bonds(lines: &Vec<String>, n_atoms: usize, n: usize) -> (r: Result<Vec<Bond>, ParseError>)
    requires
        n_atoms == 0 || COUNTS_LINE + n_atoms < lines@.len(),
    ensures
        match r {
            Ok(bonds) => bonds_from(
                views(lines@),
                COUNTS_LINE + 1 + n_atoms,
                n as nat,
                n_atoms as nat,
            ) == Ok::<Seq<Bond>, ParseError>(bonds@) && (n > 0 ==> COUNTS_LINE + n_atoms + n
                < lines@.len()),
            Err(e) => bonds_from(
                views(lines@),
                COUNTS_LINE + 1 + n_atoms,
                n as nat,
                n_atoms as nat,
            ) == Err::<Seq<Bond>, ParseError>(e),
        },
{
    let ghost ls = views(lines@);
    let ghost first = COUNTS_LINE + 1 + n_atoms;
    let n_lines = lines.len();
    let mut bonds: Vec<Bond> = Vec::new();
    let mut j: usize = 0;
    proof {
        assert(bonds@ =~= Seq::<Bond>::empty());
    }
    while j < n
        invariant
            j <= n,
            ls == views(lines@),
            n_lines == lines@.len(),
            first == COUNTS_LINE + 1 + n_atoms,
            n_atoms == 0 || COUNTS_LINE + n_atoms < lines@.len(),
            bonds_from(ls, first, j as nat, n_atoms as nat) == Ok::<Seq<Bond>, ParseError>(
                bonds@,
            ),
            j > 0 ==> COUNTS_LINE + n_atoms + j < lines@.len(),
        decreases n - j,
    {
        let row = match n_atoms.checked_add(COUNTS_LINE + 1) {
            Some(start) => start.checked_add(j),
            None => None,
        };
        let row = match row {
            Some(row) => row,
            None => {
                proof {
                    reveal(bond_at);
                    assert(bond_at(ls, first + j, n_atoms as nat) == Err::<Bond, ParseError>(
                        ParseError::MissingValue,
                    ));
                    lemma_bonds_stay_failed(ls, first, (j + 1) as nat, n as nat, n_atoms as nat);
                }
                return Err(ParseError::MissingValue);
            },
        };
        let bond = match parse_bond_line(lines, row, n_atoms) {
            Ok(b) => b,
            Err(e) => {
                proof {
                    lemma_bonds_stay_failed(ls, first, (j + 1) as nat, n as nat, n_atoms as nat);
                }
                return Err(e);
            },
        };
        bonds.push(bond);
        j += 1;
    }
    Ok(bonds)
}

/// Scans lines `first ..` for tagged properties; gives (moniker, IUPAC name).
fn read_tags(lines: &Vec<String>, first: usize) -> (r: Result<(String, String), ParseError>)
    ensures
        match r {
            Ok((moniker, iupac)) => tags_in(views(lines@), first as int, lines@.len() as int)
                == Ok::<(Seq<char>, Seq<char>), ParseError>((moniker@, iupac@)),
            Err(e) => tags_in(views(lines@), first as int, lines@.len() as int) == Err::<
                (Seq<char>, Seq<char>),
                ParseError,
            >(e),
        },
{
    let ghost ls = views(lines@);
    let iupac_tag = "> <PUBCHEM_IUPAC_NAME>".to_owned();
    let moniker_tag_text = "> <PUBCHEM_IUPAC_TRADITIONAL_NAME>".to_owned();
    let mut moniker = String::new();
    let mut iupac_name = String::new();
    if first >= lines.len() {
        return Ok((moniker, iupac_name));
    }
    let mut k: usize = first;
    while k < lines.len()
        invariant
            first <= k <= lines@.len(),
            ls == views(lines@),
            iupac_tag@ == iupac_name_tag(),
            moniker_tag_text@ == moniker_tag(),
            tags_in(ls, first as int, k as int) == Ok::<(Seq<char>, Seq<char>), ParseError>(
                (moniker@, iupac_name@),
            ),
        decreases lines.len() - k,
    {
        let is_iupac = lines[k] == iupac_tag;
        let is_moniker = lines[k] == moniker_tag_text;
        if is_iupac || is_moniker {
            if k + 1 >= lines.len() {
                proof {
                    lemma_tags_stay_failed(ls, first as int, k + 1, lines@.len() as int);
                }
                return Err(ParseError::MissingValue);
            }
            if is_iupac {
                iupac_name = lines[k + 1].clone();
            } else {
                moniker = lines[k + 1].clone();
            }
        }
        k += 1;
    }
    Ok((moniker, iupac_name))
}

/// Reads a structure record. The record is cut into lines at each `'\n'`; line
/// `COUNTS_LINE` gives the atom count, the bond count and (field `CHIRAL_FIELD`,
/// `1` meaning chiral) the chirality; that many atom lines and bond lines follow;
/// the lines after them may hold tagged properties. Bond lines number atoms from
/// 1, and a number outside the atom list is an invalid value.
pub fn parse_compound(contents: &str) -> (r: Result<Compound, ParseError>)
    ensures
        match r {
            Ok(c) => compound_of(contents@) == Ok::<CompoundView, ParseError>(c@) && c.wf(),
            Err(e) => compound_of(contents@) == Err::<CompoundView, ParseError>(e),
        },
{
    let lines = split(contents, '\n', false);
    let ghost ls = views(lines@);
    let count_line: String = match parse(&lines, COUNTS_LINE) {
        Ok(l) => l,
        Err(e) => return Err(e),
    };
    let count_fields = split(count_line.as_str(), ' ', true);
    let num_atoms: usize = match parse(&count_fields, 0) {
        Ok(v) => v,
        Err(e) => return Err(e),
    };
    let num_bonds: usize = match parse(&count_fields, 1) {
        Ok(v) => v,
        Err(e) => return Err(e),
    };
    let chiral: u8 = match parse(&count_fields, CHIRAL_FIELD) {
        Ok(v) => v,
        Err(e) => return Err(e),
    };
    proof {
        assert(compound_of(contents@) == body_of(
            ls,
            num_atoms as nat,
            num_bonds as nat,
            chiral as nat,
        ));
    }
    let atoms = match read_atoms(&lines, num_atoms) {
        Ok(a) => a,
        Err(e) => return Err(e),
    };
    let bonds = match read_bonds(&lines, num_atoms, num_bonds) {
        Ok(b) => b,
        Err(e) => return Err(e),
    };
    let n_lines = lines.len();
    let first: usize = if num_atoms == 0 && num_bonds == 0 {
        COUNTS_LINE + 1
    } else if num_bonds == 0 {
        COUNTS_LINE + 1 + num_atoms
    } else if num_atoms == 0 {
        COUNTS_LINE + 1 + num_bonds
    } else {
        COUNTS_LINE + 1 + num_atoms + num_bonds
    };
    // The bond block ends at or before the last line.
    let first = if first < n_lines {
        first
    } else {
        n_lines
    };
    let (moniker, iupac_name) = match read_tags(&lines, first) {
        Ok(t) => t,
        Err(e) => return Err(e),
    };
    proof {
        lemma_bonds_in_range(ls, COUNTS_LINE + 1 + num_atoms, num_bonds as nat, num_atoms as nat);
    }
    Ok(Compound { moniker, iupac_name, is_chiral: chiral == 1, atoms, bonds })
}

proof fn lemma_bonds_in_range(lines: Seq<Seq<char>>, first: int, n: nat, n_atoms: nat)
    requires
        bonds_from(lines, first, n, n_atoms) is Ok,
    ensures
        forall|k: int|
            0 <= k < bonds_from(lines, first, n, n_atoms)->Ok_0.len() ==> #[trigger] bonds_from(
                lines,
                first,
                n,
                n_atoms,
            )->Ok_0[k].src_index < n_atoms && bonds_from(lines, first, n, n_atoms)->Ok_0[k].dst_index
                < n_atoms,
    decreases n,
{
    reveal(bond_at);
    if n > 0 {
        lemma_bonds_in_range(lines, first, (n - 1) as nat, n_atoms);
    }
}

} // verus!
