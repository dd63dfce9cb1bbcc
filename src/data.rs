//! Data sets: the chemical elements, and parsing words as element symbols.

use vstd::prelude::*;
use vstd::string::StringSliceAdditionalSpecFns;
use vstd::std_specs::hash::obeys_key_model;
use std::collections::HashMap;

verus! {

/// A chemical element: its atomic number, its symbol and its name.
#[derive(Clone, Debug)]
pub struct ChemicalElement {
    pub number: usize,
    pub symbol: String,
    pub name: String,
}

/// The symbols of the elements, by atomic number from 1.
pub open spec fn element_symbols() -> Seq<&'static str> {
    seq![
        "H", "He", "Li", "Be", "B", "C", "N", "O", "F", "Ne", "Na", "Mg", "Al", "Si", "P", "S",
        "Cl", "Ar", "K", "Ca", "Sc", "Ti", "V", "Cr", "Mn", "Fe", "Co", "Ni", "Cu", "Zn", "Ga",
        "Ge", "As", "Se", "Br", "Kr", "Rb", "Sr", "Y", "Zr", "Nb", "Mo", "Tc", "Ru", "Rh", "Pd",
        "Ag", "Cd", "In", "Sn", "Sb", "Te", "I", "Xe", "Cs", "Ba", "La", "Ce", "Pr", "Nd", "Pm",
        "Sm", "Eu", "Gd", "Tb", "Dy", "Ho", "Er", "Tm", "Yb", "Lu", "Hf", "Ta", "W", "Re", "Os",
        "Ir", "Pt", "Au", "Hg", "Tl", "Pb", "Bi", "Po", "At", "Rn", "Fr", "Ra", "Ac", "Th", "Pa",
        "U", "Np", "Pu", "Am", "Cm", "Bk", "Cf", "Es", "Fm", "Md", "No", "Lr", "Rf", "Db", "Sg",
        "Bh", "Hs", "Mt", "Ds", "Rg", "Cn", "Nh", "Fl", "Mc", "Lv", "Ts", "Og",
    ]
}

/// The names of the elements, by atomic number from 1.
pub open spec fn element_names() -> Seq<&'static str> {
    seq![
        "Hydrogen", "Helium", "Lithium", "Beryllium", "Boron", "Carbon", "Nitrogen", "Oxygen",
        "Fluorine", "Neon", "Sodium", "Magnesium", "Aluminum", "Silicon", "Phosphorus", "Sulfur",
        "Chlorine", "Argon", "Potassium", "Calcium", "Scandium", "Titanium", "Vanadium",
        "Chromium", "Manganese", "Iron", "Cobalt", "Nickel", "Copper", "Zinc", "Gallium",
        "Germanium", "Arsenic", "Selenium", "Bromine", "Krypton", "Rubidium", "Strontium",
        "Yttrium", "Zirconium", "Niobium", "Molybdenum", "Technetium", "Ruthenium", "Rhodium",
        "Palladium", "Silver", "Cadmium", "Indium", "Tin", "Antimony", "Tellurium", "Iodine",
        "Xenon", "Cesium", "Barium", "Lanthanum", "Cerium", "Praseodymium", "Neodymium",
        "Promethium", "Samarium", "Europium", "Gadolinium", "Terbium", "Dysprosium", "Holmium",
        "Erbium", "Thulium", "Ytterbium", "Lutetium", "Hafnium", "Tantalum", "Tungsten", "Rhenium",
        "Osmium", "Iridium", "Platinum", "Gold", "Mercury", "Thallium", "Lead", "Bismuth",
        "Polonium", "Astatine", "Radon", "Francium", "Radium", "Actinium", "Thorium",
        "Protactinium", "Uranium", "Neptunium", "Plutonium", "Americium", "Curium", "Berkelium",
        "Californium", "Einsteinium", "Fermium", "Mendelevium", "Nobelium", "Lawrencium",
        "Rutherfordium", "Dubnium", "Seaborgium", "Bohrium", "Hassium", "Meitnerium",
        "Darmstadtium", "Roentgenium", "Copernicium", "Nihonium", "Flerovium", "Moscovium",
        "Livermorium", "Tennessine", "Oganesson",
    ]
}

/// The 118 chemical elements, by atomic number.
pub fn chemical_elements() -> (r: Vec<ChemicalElement>)
    ensures
        r@.len() == element_symbols().len(),
        forall|i: int|
            0 <= i < r@.len() ==> (#[trigger] r@[i]).number == i + 1 && r@[i].symbol@
                == element_symbols()[i]@ && r@[i].name@ == element_names()[i]@,
{
    let symbols: Vec<&'static str> = vec![
        "H", "He", "Li", "Be", "B", "C", "N", "O", "F", "Ne", "Na", "Mg", "Al", "Si", "P", "S",
        "Cl", "Ar", "K", "Ca", "Sc", "Ti", "V", "Cr", "Mn", "Fe", "Co", "Ni", "Cu", "Zn", "Ga",
        "Ge", "As", "Se", "Br", "Kr", "Rb", "Sr", "Y", "Zr", "Nb", "Mo", "Tc", "Ru", "Rh", "Pd",
        "Ag", "Cd", "In", "Sn", "Sb", "Te", "I", "Xe", "Cs", "Ba", "La", "Ce", "Pr", "Nd", "Pm",
        "Sm", "Eu", "Gd", "Tb", "Dy", "Ho", "Er", "Tm", "Yb", "Lu", "Hf", "Ta", "W", "Re", "Os",
        "Ir", "Pt", "Au", "Hg", "Tl", "Pb", "Bi", "Po", "At", "Rn", "Fr", "Ra", "Ac", "Th", "Pa",
        "U", "Np", "Pu", "Am", "Cm", "Bk", "Cf", "Es", "Fm", "Md", "No", "Lr", "Rf", "Db", "Sg",
        "Bh", "Hs", "Mt", "Ds", "Rg", "Cn", "Nh", "Fl", "Mc", "Lv", "Ts", "Og",
    ];
    let names: Vec<&'static str> = vec![
        "Hydrogen", "Helium", "Lithium", "Beryllium", "Boron", "Carbon", "Nitrogen", "Oxygen",
        "Fluorine", "Neon", "Sodium", "Magnesium", "Aluminum", "Silicon", "Phosphorus", "Sulfur",
        "Chlorine", "Argon", "Potassium", "Calcium", "Scandium", "Titanium", "Vanadium",
        "Chromium", "Manganese", "Iron", "Cobalt", "Nickel", "Copper", "Zinc", "Gallium",
        "Germanium", "Arsenic", "Selenium", "Bromine", "Krypton", "Rubidium", "Strontium",
        "Yttrium", "Zirconium", "Niobium", "Molybdenum", "Technetium", "Ruthenium", "Rhodium",
        "Palladium", "Silver", "Cadmium", "Indium", "Tin", "Antimony", "Tellurium", "Iodine",
        "Xenon", "Cesium", "Barium", "Lanthanum", "Cerium", "Praseodymium", "Neodymium",
        "Promethium", "Samarium", "Europium", "Gadolinium", "Terbium", "Dysprosium", "Holmium",
        "Erbium", "Thulium", "Ytterbium", "Lutetium", "Hafnium", "Tantalum", "Tungsten", "Rhenium",
        "Osmium", "Iridium", "Platinum", "Gold", "Mercury", "Thallium", "Lead", "Bismuth",
        "Polonium", "Astatine", "Radon", "Francium", "Radium", "Actinium", "Thorium",
        "Protactinium", "Uranium", "Neptunium", "Plutonium", "Americium", "Curium", "Berkelium",
        "Californium", "Einsteinium", "Fermium", "Mendelevium", "Nobelium", "Lawrencium",
        "Rutherfordium", "Dubnium", "Seaborgium", "Bohrium", "Hassium", "Meitnerium",
        "Darmstadtium", "Roentgenium", "Copernicium", "Nihonium", "Flerovium", "Moscovium",
        "Livermorium", "Tennessine", "Oganesson",
    ];
    assert(symbols@ == element_symbols());
    assert(names@ == element_names());
    let mut out: Vec<ChemicalElement> = Vec::with_capacity(symbols.len());
    for i in 0..symbols.len()
        invariant
            symbols@ == element_symbols(),
            names@ == element_names(),
            out@.len() == i,
            forall|k: int|
                0 <= k < i ==> (#[trigger] out@[k]).number == k + 1 && out@[k].symbol@
                    == element_symbols()[k]@ && out@[k].name@ == element_names()[k]@,
    {
        out.push(
            ChemicalElement {
                number: i + 1,
                symbol: symbols[i].to_owned(),
                name: names[i].to_owned(),
            },
        );
    }
    out
}

/// The uppercase form of an ASCII byte; other bytes are unchanged.
pub open spec fn upper_byte(b: u8) -> u8 {
    if 'a' as u8 <= b <= 'z' as u8 {
        (b - 32) as u8
    } else {
        b
    }
}

/// The uppercase bytes of the symbol of the element at index `i` (atomic
/// number `i + 1`).
pub open spec fn symbol_key(i: int) -> Seq<u8> {
    element_symbols()[i].spec_bytes().map_values(|b: u8| upper_byte(b))
}

/// `k` is the uppercase symbol of an element.
pub open spec fn is_symbol(k: Seq<u8>) -> bool {
    exists|i: int| 0 <= i < element_symbols().len() && #[trigger] symbol_key(i) == k
}

/// The number of ways to write `s` as a sequence of uppercase element
/// symbols.
pub open spec fn count_parses(s: Seq<u8>) -> nat
    decreases s.len(),
{
    if s.len() == 0 {
        1
    } else {
        (if is_symbol(s.subrange(0, 1)) {
            count_parses(s.subrange(1, s.len() as int))
        } else {
            0
        }) + (if s.len() >= 2 && is_symbol(s.subrange(0, 2)) {
            count_parses(s.subrange(2, s.len() as int))
        } else {
            0
        })
    }
}

/// A count, or `u64::MAX` where it is larger.
pub open spec fn capped(n: nat) -> u64 {
    if n > u64::MAX {
        u64::MAX
    } else {
        n as u64
    }
}

/// `e` is the element of the table with its atomic number.
pub open spec fn is_table_element(e: ChemicalElement) -> bool {
    &&& 1 <= e.number <= element_symbols().len()
    &&& e.symbol@ == element_symbols()[e.number - 1]@
    &&& e.name@ == element_names()[e.number - 1]@
}

/// The elements `v`, read in order, spell `s` with their uppercase symbols.
pub open spec fn spells(v: Seq<ChemicalElement>, s: Seq<u8>) -> bool
    decreases v.len(),
{
    if v.len() == 0 {
        s.len() == 0
    } else {
        let k = symbol_key(v.last().number - 1);
        &&& is_table_element(v.last())
        &&& k.len() <= s.len()
        &&& s.subrange(s.len() - k.len(), s.len() as int) == k
        &&& spells(v.drop_last(), s.subrange(0, s.len() - k.len()))
    }
}

/// The index of the element whose uppercase symbol is `k`, if any.
fn element_index(elements: &Vec<ChemicalElement>, k: &[u8]) -> (r: Option<usize>)
    requires
        elements@.len() == element_symbols().len(),
        forall|i: int|
            0 <= i < elements@.len() ==> (#[trigger] elements@[i]).number == i + 1
                && elements@[i].symbol@ == element_symbols()[i]@,
    ensures
        match r {
            Some(i) => i < element_symbols().len() && symbol_key(i as int) == k@,
            None => !is_symbol(k@),
        },
{
    for i in 0..elements.len()
        invariant
            elements@.len() == element_symbols().len(),
            forall|i: int|
                0 <= i < elements@.len() ==> (#[trigger] elements@[i]).number == i + 1
                    && elements@[i].symbol@ == element_symbols()[i]@,
            forall|j: int| 0 <= j < i ==> #[trigger] symbol_key(j) != k@,
    {
        let sym = elements[i].symbol.as_str().as_bytes();
        let ghost key = symbol_key(i as int);
        assert(sym@ == element_symbols()[i as int].spec_bytes());
        let mut same = sym.len() == k.len();
        if same {
            let mut j: usize = 0;
            while j < k.len()
                invariant
                    sym@.len() == k@.len(),
                    key == sym@.map_values(|b: u8| upper_byte(b)),
                    j <= k@.len(),
                    same == forall|m: int| 0 <= m < j ==> key[m] == k@[m],
                decreases k@.len() - j,
            {
                let b = sym[j];
                let u = if 'a' as u8 <= b && b <= 'z' as u8 {
                    b - 32
                } else {
                    b
                };
                assert(key[j as int] == u);
                if u != k[j] {
                    same = false;
                }
                j += 1;
            }
            if same {
                assert(key =~= k@);
                return Some(i);
            }
        }
        assert(key != k@);
    }
    None
}

/// If `s` can be written as a sequence of element symbols (compared in
/// uppercase), returns the number of ways to do so and one of them.
/// Otherwise returns 0 and `None`. A number of ways above `u64::MAX` is
/// given as `u64::MAX`.
pub fn parse_as_element_symbols(s: &str) -> (r: (u64, Option<Vec<ChemicalElement>>))
    ensures
        r.0 == capped(count_parses(s.spec_bytes())),
        r.1 is None <==> count_parses(s.spec_bytes()) == 0,
        match r.1 {
            Some(v) => spells(v@, s.spec_bytes()),
            None => true,
        },
{
    let elements = chemical_elements();
    let b = s.as_bytes();
    let n = b.len();
    let mut partial: Vec<u64> = Vec::new();
    let mut choice: Vec<usize> = Vec::new();
    partial.push(1);
    choice.push(0);
    proof {
        assert(b@.subrange(n as int, n as int).len() == 0);
    }
    for k in 0..n
        invariant
            n == b@.len(),
            partial@.len() == k + 1,
            choice@.len() == k + 1,
            elements@.len() == element_symbols().len(),
            forall|i: int|
                0 <= i < elements@.len() ==> (#[trigger] elements@[i]).number == i + 1
                    && elements@[i].symbol@ == element_symbols()[i]@ && elements@[i].name@
                    == element_names()[i]@,
            forall|m: int|
                0 <= m <= k ==> #[trigger] partial@[m] == capped(
                    count_parses(b@.subrange(n - m, n as int)),
                ),
            forall|m: int|
                0 < m <= k ==> (count_parses(b@.subrange(n - m, n as int)) > 0 ==> {
                    let sz = #[trigger] choice@[m] as int;
                    &&& 1 <= sz <= m
                    &&& is_symbol(b@.subrange(n - m, n - m + sz))
                    &&& count_parses(b@.subrange(n - m + sz, n as int)) > 0
                }),
    {
        let idx = k + 1;
        let start = n - idx;
        let ghost suf = b@.subrange(start as int, n as int);
        let one = element_index(&elements, &b[start..start + 1]);
        let mut total: u64 = 0;
        let mut off: usize = 0;
        let ghost mut count: nat = 0;
        proof {
            assert(suf.subrange(0, 1) =~= b@.subrange(start as int, start + 1));
            assert(suf.subrange(1, suf.len() as int) =~= b@.subrange(n - (idx - 1), n as int));
        }
        if idx >= 2 {
            let two = element_index(&elements, &b[start..start + 2]);
            proof {
                assert(suf.subrange(0, 2) =~= b@.subrange(start as int, start + 2));
                assert(suf.subrange(2, suf.len() as int) =~= b@.subrange(n - (idx - 2), n as int));
            }
            if two.is_some() {
                total = partial[idx - 2];
                proof {
                    count = count_parses(b@.subrange(n - (idx - 2), n as int));
                }
                if total > 0 {
                    off = 2;
                }
            }
        }
        if one.is_some() {
            let p = partial[idx - 1];
            proof {
                count = count + count_parses(b@.subrange(n - (idx - 1), n as int));
            }
            total = if total > u64::MAX - p {
                u64::MAX
            } else {
                total + p
            };
            if off == 0 && p > 0 {
                off = 1;
            }
        }
        assert(count == count_parses(suf));
        assert(total == capped(count));
        partial.push(total);
        choice.push(off);
    }
    assert(b@.subrange(0, n as int) =~= b@);
    let tot = partial[n];
    if tot == 0 {
        return (0, None);
    }
    let mut v: Vec<ChemicalElement> = Vec::with_capacity(n);
    let mut idx: usize = n;
    while idx > 0
        invariant
            n == b@.len(),
            idx <= n,
            partial@.len() == n + 1,
            choice@.len() == n + 1,
            elements@.len() == element_symbols().len(),
            forall|i: int|
                0 <= i < elements@.len() ==> (#[trigger] elements@[i]).number == i + 1
                    && elements@[i].symbol@ == element_symbols()[i]@ && elements@[i].name@
                    == element_names()[i]@,
            forall|m: int|
                0 < m <= n ==> (count_parses(b@.subrange(n - m, n as int)) > 0 ==> {
                    let sz = #[trigger] choice@[m] as int;
                    &&& 1 <= sz <= m
                    &&& is_symbol(b@.subrange(n - m, n - m + sz))
                    &&& count_parses(b@.subrange(n - m + sz, n as int)) > 0
                }),
            count_parses(b@.subrange(n - idx, n as int)) > 0,
            spells(v@, b@.subrange(0, n - idx)),
        decreases idx,
    {
        let sz = choice[idx];
        let start = n - idx;
        let i = element_index(&elements, &b[start..start + sz]);
        let i = i.unwrap();
        let e = ChemicalElement {
            number: elements[i].number,
            symbol: elements[i].symbol.clone(),
            name: elements[i].name.clone(),
        };
        let ghost old_v = v@;
        v.push(e);
        proof {
            let s2 = b@.subrange(0, start + sz);
            assert(v@.drop_last() =~= old_v);
            assert(s2.subrange(s2.len() - sz, s2.len() as int) =~= b@.subrange(
                start as int,
                start + sz,
            ));
            assert(s2.subrange(0, s2.len() - sz) =~= b@.subrange(0, start as int));
            assert(symbol_key(v@.last().number - 1) == symbol_key(i as int));
        }
        idx -= sz;
    }
    (tot, Some(v))
}

/// The map from each key to the last value given with it.
pub open spec fn keyed<K, T>(keys: Seq<K>, values: Seq<T>) -> Map<K, T>
    decreases keys.len(),
{
    if keys.len() == 0 || values.len() == 0 {
        Map::empty()
    } else {
        keyed(keys.drop_last(), values.drop_last()).insert(keys.last(), values.last())
    }
}

/// Maps each item's key to the item; of items with equal keys, the last
/// one is kept.
pub fn map_by<T, K, F>(items: Vec<T>, key: F) -> (r: HashMap<K, T>)
    where
        K: Eq + std::hash::Hash,
        F: Fn(&T) -> K,
    requires
        forall|x: &T| #[trigger] key.requires((x,)),
    ensures
        obeys_key_model::<K>() ==> exists|keys: Seq<K>|
            {
                &&& keys.len() == items@.len()
                &&& forall|i: int|
                    0 <= i < keys.len() ==> #[trigger] key.ensures((&items@[i],), keys[i])
                &&& r@ == keyed(keys, items@)
            },
{
    broadcast use vstd::std_specs::hash::group_hash_axioms;

    let mut map: HashMap<K, T> = HashMap::new();
    let ghost src = items@;
    let ghost mut keys: Seq<K> = Seq::empty();
    for item in it: items.into_iter()
        invariant
            it.seq() == src,
            keys.len() == it.index(),
            forall|x: &T| #[trigger] key.requires((x,)),
            forall|i: int| 0 <= i < keys.len() ==> #[trigger] key.ensures((&src[i],), keys[i]),
            obeys_key_model::<K>() ==> map@ == keyed(keys, src.subrange(0, keys.len() as int)),
    {
        let k = key(&item);
        proof {
            let ks = keys.push(k);
            let vs = src.subrange(0, ks.len() as int);
            assert(ks.drop_last() =~= keys);
            assert(vs.drop_last() =~= src.subrange(0, keys.len() as int));
            assert(vs.last() == item);
        }
        map.insert(k, item);
        proof {
            keys = keys.push(k);
        }
    }
    proof {
        assert(src.subrange(0, keys.len() as int) =~= src);
    }
    map
}

} // verus!
