//! Mapping a compound onto rendering primitives: one sphere per atom, sized
//! and colored from a table of element properties, then one cylinder per bond.
use vstd::prelude::*;

use crate::parser::{AtomView, Bond, Compound, Position};

verus! {

/// Covalent radius value that marks a radius as not defined.
pub const UNDEFINED_RADIUS: i32 = -1;

/// Properties of one element. `covalent_radius` holds the radii for single,
/// double and triple bonds; `UNDEFINED_RADIUS` marks one that is not known.
#[derive(Clone, Copy, Debug, PartialEq)]
pub struct ElementInfo<C> {
    pub waal_radius: i32,
    pub covalent_radius: [i32; 3],
    pub color: C,
}

impl<C> ElementInfo<C> {
    pub open spec fn single_radius(&self) -> i32 {
        self.covalent_radius@[0]
    }
}

/// The exact number `num / den`.
#[derive(Clone, Copy, Debug, PartialEq, Eq)]
pub struct Ratio {
    pub num: i64,
    pub den: i64,
}

/// A rendering primitive.
#[derive(Clone, Copy, Debug, PartialEq)]
pub enum Shape<C> {
    Sphere { origin: Position, color: C, radius: Ratio },
    Cylinder { start: Position, end: Position, color: C, radius: Ratio },
}

/// How bonds are drawn: every cylinder gets this color and radius.
#[derive(Clone, Copy, Debug, PartialEq)]
pub struct BondStyle<C> {
    pub color: C,
    pub radius: Ratio,
}

/// Element properties keyed by chemical symbol (case-sensitive), one entry per symbol.
pub struct PropertyTable<C> {
    entries: Vec<(String, ElementInfo<C>)>,
}

pub open spec fn entries_map<C>(entries: Seq<(String, ElementInfo<C>)>) -> Map<
    Seq<char>,
    ElementInfo<C>,
>
    decreases entries.len(),
{
    if entries.len() == 0 {
        Map::empty()
    } else {
        entries_map(entries.drop_last()).insert(entries.last().0@, entries.last().1)
    }
}

pub open spec fn keys_unique<C>(entries: Seq<(String, ElementInfo<C>)>) -> bool {
    forall|i: int, j: int|
        0 <= i < entries.len() && 0 <= j < entries.len() && i != j ==> (#[trigger] entries[i]).0@
            != (#[trigger] entries[j]).0@
}

proof fn lemma_entries_map<C>(entries: Seq<(String, ElementInfo<C>)>)
    requires
        keys_unique(entries),
    ensures
        forall|s: Seq<char>|
            #[trigger] entries_map(entries).contains_key(s) <==> exists|k: int|
                0 <= k < entries.len() && (#[trigger] entries[k]).0@ == s,
        forall|k: int|
            0 <= k < entries.len() ==> entries_map(entries)[(#[trigger] entries[k]).0@]
                == entries[k].1,
    decreases entries.len(),
{
    if entries.len() > 0 {
        let prev = entries.drop_last();
        assert(keys_unique(prev)) by {
            assert forall|i: int, j: int|
                0 <= i < prev.len() && 0 <= j < prev.len() && i != j implies (#[trigger] prev[i]).0@
                != (#[trigger] prev[j]).0@ by {
                assert(prev[i] == entries[i]);
                assert(prev[j] == entries[j]);
            }
        }
        lemma_entries_map(prev);
        let m = entries_map(entries);
        assert forall|s: Seq<char>| #[trigger] m.contains_key(s) <==> exists|k: int|
            0 <= k < entries.len() && (#[trigger] entries[k]).0@ == s by {
            if m.contains_key(s) {
                if s == entries.last().0@ {
                    assert(entries[entries.len() - 1].0@ == s);
                } else {
                    assert(entries_map(prev).contains_key(s));
                    let k = choose|k: int| 0 <= k < prev.len() && (#[trigger] prev[k]).0@ == s;
                    assert(entries[k] == prev[k]);
                    assert(entries[k].0@ == s);
                }
            }
            if exists|k: int| 0 <= k < entries.len() && (#[trigger] entries[k]).0@ == s {
                let k = choose|k: int| 0 <= k < entries.len() && (#[trigger] entries[k]).0@ == s;
                if k < prev.len() {
                    assert(prev[k] == entries[k]);
                }
            }
        }
        assert forall|k: int| 0 <= k < entries.len() implies entries_map(entries)[(
        #[trigger] entries[k]).0@] == entries[k].1 by {
            if k < prev.len() {
                assert(prev[k] == entries[k]);
                assert(entries[k].0@ != entries[entries.len() - 1].0@);
            }
        }
    }
}

/// `r` is the largest defined single-bond radius of `m`, or 0 where `m` defines none.
pub open spec fn is_max_radius<C>(m: Map<Seq<char>, ElementInfo<C>>, r: i32) -> bool {
    &&& forall|s: Seq<char>|
        #[trigger] m.contains_key(s) && m[s].single_radius() != UNDEFINED_RADIUS
            ==> m[s].single_radius() <= r
    &&& (exists|s: Seq<char>|
        #[trigger] m.contains_key(s) && m[s].single_radius() != UNDEFINED_RADIUS
            && m[s].single_radius() == r) || (r == 0 && forall|s: Seq<char>|
        #[trigger] m.contains_key(s) ==> m[s].single_radius() == UNDEFINED_RADIUS)
}

/// The largest defined single-bond radius of `m`, 0 where `m` defines none:
/// the scale that sphere radii are divided by.
pub open spec fn max_single_radius<C>(m: Map<Seq<char>, ElementInfo<C>>) -> i32 {
    choose|r: i32| is_max_radius(m, r)
}

proof fn lemma_max_radius_unique<C>(m: Map<Seq<char>, ElementInfo<C>>, a: i32, b: i32)
    requires
        is_max_radius(m, a),
        is_max_radius(m, b),
    ensures
        a == b,
{
}

impl<C> PropertyTable<C> {
    pub closed spec fn view(&self) -> Map<Seq<char>, ElementInfo<C>> {
        entries_map(self.entries@)
    }

    pub closed spec fn wf(&self) -> bool {
        keys_unique(self.entries@)
    }

    pub fn new() -> (r: PropertyTable<C>)
        ensures
            r.wf(),
            r.view() == Map::<Seq<char>, ElementInfo<C>>::empty(),
    {
        PropertyTable { entries: Vec::new() }
    }

    fn find(&self, symbol: &String) -> (r: Option<usize>)
        requires
            self.wf(),
        ensures
            match r {
                Some(k) => k < self.entries@.len() && self.entries@[k as int].0@ == symbol@,
                None => !self.view().contains_key(symbol@),
            },
    {
        proof {
            lemma_entries_map(self.entries@);
        }
        let mut k: usize = 0;
        while k < self.entries.len()
            invariant
                k <= self.entries@.len(),
                forall|j: int| 0 <= j < k ==> (#[trigger] self.entries@[j]).0@ != symbol@,
            decreases self.entries.len() - k,
        {
            if self.entries[k].0 == *symbol {
                return Some(k);
            }
            k += 1;
        }
        None
    }

    /// The properties of `symbol`, if the table has them.
    pub fn get(&self, symbol: &String) -> (r: Option<&ElementInfo<C>>)
        requires
            self.wf(),
        ensures
            match r {
                Some(info) => self.view().contains_key(symbol@) && self.view()[symbol@] == *info,
                None => !self.view().contains_key(symbol@),
            },
    {
        proof {
            lemma_entries_map(self.entries@);
        }
        match self.find(symbol) {
            Some(k) => Some(&self.entries[k].1),
            None => None,
        }
    }

    /// The largest defined single-bond covalent radius of the table; 0 where none is defined.
    pub fn max_covalent_radius(&self) -> (r: i32)
        requires
            self.wf(),
        ensures
            r == max_single_radius(self.view()),
            is_max_radius(self.view(), r),
    {
        proof {
            lemma_entries_map(self.entries@);
        }
        let mut best: i32 = 0;
        let mut found = false;
        let mut k: usize = 0;
        while k < self.entries.len()
            invariant
                k <= self.entries@.len(),
                forall|j: int|
                    0 <= j < k && (#[trigger] self.entries@[j]).1.single_radius() != UNDEFINED_RADIUS
                        ==> self.entries@[j].1.single_radius() <= best,
                found ==> exists|j: int|
                    0 <= j < k && (#[trigger] self.entries@[j]).1.single_radius() != UNDEFINED_RADIUS
                        && self.entries@[j].1.single_radius() == best,
                !found ==> best == 0 && forall|j: int|
                    0 <= j < k ==> (#[trigger] self.entries@[j]).1.single_radius()
                        == UNDEFINED_RADIUS,
            decreases self.entries.len() - k,
        {
            let radius = self.entries[k].1.covalent_radius[0];
            if radius != UNDEFINED_RADIUS && (!found || radius > best) {
                best = radius;
                found = true;
            }
            k += 1;
        }
        proof {
            let m = self.view();
            assert(is_max_radius(m, best)) by {
                assert forall|s: Seq<char>|
                    #[trigger] m.contains_key(s) && m[s].single_radius() != UNDEFINED_RADIUS
                        implies m[s].single_radius() <= best by {
                    let j = choose|j: int|
                        0 <= j < self.entries@.len() && (#[trigger] self.entries@[j]).0@ == s;
                    assert(m[self.entries@[j].0@] == self.entries@[j].1);
                }
                if found {
                    let j = choose|j: int|
                        0 <= j < k && (#[trigger] self.entries@[j]).1.single_radius()
                            != UNDEFINED_RADIUS && self.entries@[j].1.single_radius() == best;
                    assert(m.contains_key(self.entries@[j].0@));
                    assert(m[self.entries@[j].0@] == self.entries@[j].1);
                } else {
                    assert forall|s: Seq<char>| #[trigger] m.contains_key(s) implies m[s].single_radius()
                        == UNDEFINED_RADIUS by {
                        let j = choose|j: int|
                            0 <= j < self.entries@.len() && (#[trigger] self.entries@[j]).0@ == s;
                        assert(m[self.entries@[j].0@] == self.entries@[j].1);
                    }
                }
            }
            lemma_max_radius_unique(m, best, max_single_radius(m));
        }
        best
    }

    /// Sets the properties of `symbol`, replacing any it had.
    pub fn insert(&mut self, symbol: String, info: ElementInfo<C>)
        requires
            old(self).wf(),
        ensures
            final(self).wf(),
            final(self).view() == old(self).view().insert(symbol@, info),
    {
        proof {
            lemma_entries_map(self.entries@);
        }
        match self.find(&symbol) {
            Some(k) => {
                let ghost before = self.entries@;
                let ghost sym = symbol@;
                self.entries.set(k, (symbol, info));
                proof {
                    let after = self.entries@;
                    assert(keys_unique(after)) by {
                        assert forall|i: int, j: int|
                            0 <= i < after.len() && 0 <= j < after.len() && i != j implies (
                            #[trigger] after[i]).0@ != (#[trigger] after[j]).0@ by {
                            if i != k && j != k {
                                assert(after[i] == before[i] && after[j] == before[j]);
                            } else if i == k {
                                assert(after[j] == before[j]);
                                assert(before[k as int].0@ == sym);
                            } else {
                                assert(after[i] == before[i]);
                                assert(before[k as int].0@ == sym);
                            }
                        }
                    }
                    lemma_entries_map(after);
                    assert(entries_map(after) =~= entries_map(before).insert(sym, info)) by {
                        assert forall|s: Seq<char>| #[trigger] entries_map(after).contains_key(s)
                            <==> entries_map(before).insert(sym, info).contains_key(s) by {
                            if entries_map(after).contains_key(s) {
                                let j = choose|j: int|
                                    0 <= j < after.len() && (#[trigger] after[j]).0@ == s;
                                if j != k {
                                    assert(after[j] == before[j]);
                                }
                            }
                            if entries_map(before).contains_key(s) {
                                let j = choose|j: int|
                                    0 <= j < before.len() && (#[trigger] before[j]).0@ == s;
                                if j != k {
                                    assert(after[j] == before[j]);
                                } else {
                                    assert(after[k as int].0@ == s);
                                }
                            }
                            if s == sym {
                                assert(after[k as int].0@ == s);
                            }
                        }
                        assert forall|s: Seq<char>| #[trigger] entries_map(after).contains_key(s)
                            implies entries_map(after)[s] == entries_map(before).insert(
                            sym,
                            info,
                        )[s] by {
                            let j = choose|j: int|
                                0 <= j < after.len() && (#[trigger] after[j]).0@ == s;
                            if j != k {
                                assert(after[j] == before[j]);
                            }
                        }
                    }
                }
            },
            None => {
                let ghost before = self.entries@;
                let ghost sym = symbol@;
                self.entries.push((symbol, info));
                proof {
                    let after = self.entries@;
                    assert(after.drop_last() =~= before);
                    assert(keys_unique(after)) by {
                        assert forall|i: int, j: int|
                            0 <= i < after.len() && 0 <= j < after.len() && i != j implies (
                            #[trigger] after[i]).0@ != (#[trigger] after[j]).0@ by {
                            if i < before.len() {
                                assert(after[i] == before[i]);
                            }
                            if j < before.len() {
                                assert(after[j] == before[j]);
                            }
                        }
                    }
                }
            },
        }
    }
}

/// Why a compound could not be mapped onto shapes; `atom` is the position of
/// the first atom that failed.
#[derive(Clone, Copy, Debug, PartialEq, Eq)]
pub enum MapError {
    /// The atom's element is not in the property table.
    UnknownElement { atom: usize },
    /// The atom's element has no positive single-bond covalent radius.
    UndefinedRadius { atom: usize },
}

/// What keeps atom `i` from becoming a sphere, if anything.
pub open spec fn atom_error<C>(
    table: Map<Seq<char>, ElementInfo<C>>,
    atoms: Seq<AtomView>,
    i: int,
) -> Option<MapError> {
    if !table.contains_key(atoms[i].element) {
        Some(MapError::UnknownElement { atom: i as usize })
    } else if table[atoms[i].element].single_radius() <= 0 {
        Some(MapError::UndefinedRadius { atom: i as usize })
    } else {
        None
    }
}

/// Every atom's element is in the table with a positive single-bond radius.
pub open spec fn all_atoms_mappable<C>(
    table: Map<Seq<char>, ElementInfo<C>>,
    atoms: Seq<AtomView>,
) -> bool {
    forall|i: int|
        0 <= i < atoms.len() ==> table.contains_key(#[trigger] atoms[i].element)
            && table[atoms[i].element].single_radius() > 0
}

/// The error of the first of the first `n` atoms that fails, if any.
pub open spec fn first_atom_error<C>(
    table: Map<Seq<char>, ElementInfo<C>>,
    atoms: Seq<AtomView>,
    n: nat,
) -> Option<MapError>
    decreases n,
{
    if n == 0 {
        None
    } else {
        match first_atom_error(table, atoms, (n - 1) as nat) {
            Some(e) => Some(e),
            None => atom_error(table, atoms, n - 1),
        }
    }
}

/// The sphere of an atom: at its position, colored by its element, with the
/// element's single-bond radius over `max_radius` as radius.
pub open spec fn sphere_of<C>(
    table: Map<Seq<char>, ElementInfo<C>>,
    atom: AtomView,
    max_radius: i32,
) -> Shape<C> {
    Shape::Sphere {
        origin: atom.position,
        color: table[atom.element].color,
        radius: Ratio { num: table[atom.element].single_radius() as i64, den: max_radius as i64 },
    }
}

/// The cylinder of a bond: from its source atom to its destination atom.
pub open spec fn cylinder_of<C>(atoms: Seq<AtomView>, bond: Bond, style: BondStyle<C>) -> Shape<C> {
    Shape::Cylinder {
        start: atoms[bond.src_index as int].position,
        end: atoms[bond.dst_index as int].position,
        color: style.color,
        radius: style.radius,
    }
}

/// `shapes` is `n` spheres followed by `m` cylinders.
pub open spec fn spheres_then_cylinders<C>(shapes: Seq<Shape<C>>, n: nat, m: nat) -> bool {
    &&& shapes.len() == n + m
    &&& forall|k: int| 0 <= k < n ==> (#[trigger] shapes[k]) is Sphere
    &&& forall|k: int| n <= k < n + m ==> (#[trigger] shapes[k]) is Cylinder
}

proof fn lemma_no_error_means_mappable<C>(
    table: Map<Seq<char>, ElementInfo<C>>,
    atoms: Seq<AtomView>,
    n: nat,
)
    requires
        n <= atoms.len(),
    ensures
        first_atom_error(table, atoms, n) is None <==> forall|i: int|
            0 <= i < n ==> table.contains_key(#[trigger] atoms[i].element)
                && table[atoms[i].element].single_radius() > 0,
    decreases n,
{
    if n > 0 {
        lemma_no_error_means_mappable(table, atoms, (n - 1) as nat);
    }
}

proof fn lemma_first_error_stays<C>(
    table: Map<Seq<char>, ElementInfo<C>>,
    atoms: Seq<AtomView>,
    i: nat,
    n: nat,
)
    requires
        i <= n,
        first_atom_error(table, atoms, i) is Some,
    ensures
        first_atom_error(table, atoms, n) == first_atom_error(table, atoms, i),
    decreases n - i,
{
    if i < n {
        lemma_first_error_stays(table, atoms, i, (n - 1) as nat);
    }
}

/// Maps a compound onto shapes: a sphere for each atom, in atom order, then a
/// cylinder for each bond, in bond order, drawn in `bond_style`. Sphere radii
/// are scaled by the table's largest defined single-bond radius. Fails on the
/// first atom whose element the table lacks or gives no positive radius.
pub fn compound_to_shape<C: Copy>(
    compound: &Compound,
    element_infos: &PropertyTable<C>,
    bond_style: BondStyle<C>,
) -> (r: Result<Vec<Shape<C>>, MapError>)
    requires
        compound.wf(),
        element_infos.wf(),
    ensures
        ({
            let table = element_infos.view();
            let atoms = compound@.atoms;
            let n = atoms.len();
            let m = compound@.bonds.len();
            &&& (r is Ok <==> all_atoms_mappable(table, atoms))
            &&& match r {
                Ok(shapes) => {
                    &&& first_atom_error(table, atoms, n) is None
                    &&& spheres_then_cylinders(shapes@, n, m)
                    &&& forall|k: int|
                        0 <= k < n ==> 0 < (#[trigger] shapes@[k])->Sphere_radius.num
                            <= shapes@[k]->Sphere_radius.den
                    &&& forall|k: int|
                        0 <= k < n ==> #[trigger] shapes@[k] == sphere_of(
                            table,
                            atoms[k],
                            max_single_radius(table),
                        )
                    &&& forall|k: int|
                        0 <= k < m ==> #[trigger] shapes@[n + k] == cylinder_of(
                            atoms,
                            compound@.bonds[k],
                            bond_style,
                        )
                },
                Err(e) => first_atom_error(table, atoms, n) == Some(e),
            }
        }),
{
    let ghost table = element_infos.view();
    let ghost atoms = compound@.atoms;
    let max_radius = element_infos.max_covalent_radius();
    let n = compound.atoms.len();
    let mut shapes: Vec<Shape<C>> = Vec::new();
    let mut i: usize = 0;
    while i < n
        invariant
            i <= n,
            n == compound.atoms@.len(),
            atoms == compound@.atoms,
            table == element_infos.view(),
            element_infos.wf(),
            max_radius == max_single_radius(table),
            first_atom_error(table, atoms, i as nat) is None,
            shapes@.len() == i,
            forall|k: int|
                0 <= k < i ==> #[trigger] shapes@[k] == sphere_of(table, atoms[k], max_radius),
        decreases n - i,
    {
        let atom = &compound.atoms[i];
        proof {
            assert(atoms[i as int] == compound.atoms@[i as int]@);
        }
        let info = match element_infos.get(&atom.element) {
            Some(info) => info,
            None => {
                proof {
                    lemma_first_error_stays(table, atoms, (i + 1) as nat, n as nat);
                    lemma_no_error_means_mappable(table, atoms, n as nat);
                }
                return Err(MapError::UnknownElement { atom: i });
            },
        };
        let radius = info.covalent_radius[0];
        if radius <= 0 {
            proof {
                lemma_first_error_stays(table, atoms, (i + 1) as nat, n as nat);
                lemma_no_error_means_mappable(table, atoms, n as nat);
            }
            return Err(MapError::UndefinedRadius { atom: i });
        }
        shapes.push(
            Shape::Sphere {
                origin: atom.position,
                color: info.color,
                radius: Ratio { num: radius as i64, den: max_radius as i64 },
            },
        );
        i += 1;
    }
    let m = compound.bonds.len();
    let mut j: usize = 0;
    while j < m
        invariant
            j <= m,
            m == compound.bonds@.len(),
            n == compound.atoms@.len(),
            atoms == compound@.atoms,
            compound.wf(),
            shapes@.len() == n + j,
            forall|k: int|
                0 <= k < n ==> #[trigger] shapes@[k] == sphere_of(table, atoms[k], max_radius),
            forall|k: int|
                0 <= k < j ==> #[trigger] shapes@[n + k] == cylinder_of(
                    atoms,
                    compound@.bonds[k],
                    bond_style,
                ),
        decreases m - j,
    {
        let bond = compound.bonds[j];
        proof {
            assert(compound.bonds@[j as int] == bond);
        }
        let start = compound.atoms[bond.src_index].position;
        let end = compound.atoms[bond.dst_index].position;
        proof {
            assert(atoms[bond.src_index as int] == compound.atoms@[bond.src_index as int]@);
            assert(atoms[bond.dst_index as int] == compound.atoms@[bond.dst_index as int]@);
        }
        shapes.push(
            Shape::Cylinder { start, end, color: bond_style.color, radius: bond_style.radius },
        );
        proof {
            assert(shapes@[n + j as int] == cylinder_of(atoms, compound@.bonds[j as int], bond_style));
        }
        j += 1;
    }
    proof {
        lemma_no_error_means_mappable(table, atoms, n as nat);
        assert forall|k: int| 0 <= k < n implies 0 < (#[trigger] shapes@[k])->Sphere_radius.num
            <= shapes@[k]->Sphere_radius.den by {
            let e = atoms[k].element;
            assert(table.contains_key(e) && table[e].single_radius() > 0);
            assert(table[e].single_radius() != UNDEFINED_RADIUS);
        }
        assert forall|k: int| n <= k < n + m implies (#[trigger] shapes@[k]) is Cylinder by {
            assert(shapes@[n + (k - n)] == cylinder_of(atoms, compound@.bonds[k - n], bond_style));
        }
    }
    Ok(shapes)
}

} // verus!
