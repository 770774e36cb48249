//! Element symbols and elemental compositions with exact rational amounts.

use crate::error::GugenError;
use crate::frac::Frac;
use vstd::prelude::*;
use vstd::string::{StrSliceExecFns, StringExecFns};

verus! {

/// Number of IUPAC element symbols.
pub const ELEMENT_COUNT: u8 = 118;

/// The 118 IUPAC element symbols in byte-lexicographic order; the position
/// of a symbol in this order is its [`Element`] index, so comparing
/// indices compares symbols as strings.
pub open spec fn symbol_seq(i: u8) -> Seq<char> {
    match i {
        0 => seq!['A', 'c'],
        1 => seq!['A', 'g'],
        2 => seq!['A', 'l'],
        3 => seq!['A', 'm'],
        4 => seq!['A', 'r'],
        5 => seq!['A', 's'],
        6 => seq!['A', 't'],
        7 => seq!['A', 'u'],
        8 => seq!['B'],
        9 => seq!['B', 'a'],
        10 => seq!['B', 'e'],
        11 => seq!['B', 'h'],
        12 => seq!['B', 'i'],
        13 => seq!['B', 'k'],
        14 => seq!['B', 'r'],
        15 => seq!['C'],
        16 => seq!['C', 'a'],
        17 => seq!['C', 'd'],
        18 => seq!['C', 'e'],
        19 => seq!['C', 'f'],
        20 => seq!['C', 'l'],
        21 => seq!['C', 'm'],
        22 => seq!['C', 'n'],
        23 => seq!['C', 'o'],
        24 => seq!['C', 'r'],
        25 => seq!['C', 's'],
        26 => seq!['C', 'u'],
        27 => seq!['D', 'b'],
        28 => seq!['D', 's'],
        29 => seq!['D', 'y'],
        30 => seq!['E', 'r'],
        31 => seq!['E', 's'],
        32 => seq!['E', 'u'],
        33 => seq!['F'],
        34 => seq!['F', 'e'],
        35 => seq!['F', 'l'],
        36 => seq!['F', 'm'],
        37 => seq!['F', 'r'],
        38 => seq!['G', 'a'],
        39 => seq!['G', 'd'],
        40 => seq!['G', 'e'],
        41 => seq!['H'],
        42 => seq!['H', 'e'],
        43 => seq!['H', 'f'],
        44 => seq!['H', 'g'],
        45 => seq!['H', 'o'],
        46 => seq!['H', 's'],
        47 => seq!['I'],
        48 => seq!['I', 'n'],
        49 => seq!['I', 'r'],
        50 => seq!['K'],
        51 => seq!['K', 'r'],
        52 => seq!['L', 'a'],
        53 => seq!['L', 'i'],
        54 => seq!['L', 'r'],
        55 => seq!['L', 'u'],
        56 => seq!['L', 'v'],
        57 => seq!['M', 'c'],
        58 => seq!['M', 'd'],
        59 => seq!['M', 'g'],
        60 => seq!['M', 'n'],
        61 => seq!['M', 'o'],
        62 => seq!['M', 't'],
        63 => seq!['N'],
        64 => seq!['N', 'a'],
        65 => seq!['N', 'b'],
        66 => seq!['N', 'd'],
        67 => seq!['N', 'e'],
        68 => seq!['N', 'h'],
        69 => seq!['N', 'i'],
        70 => seq!['N', 'o'],
        71 => seq!['N', 'p'],
        72 => seq!['O'],
        73 => seq!['O', 'g'],
        74 => seq!['O', 's'],
        75 => seq!['P'],
        76 => seq!['P', 'a'],
        77 => seq!['P', 'b'],
        78 => seq!['P', 'd'],
        79 => seq!['P', 'm'],
        80 => seq!['P', 'o'],
        81 => seq!['P', 'r'],
        82 => seq!['P', 't'],
        83 => seq!['P', 'u'],
        84 => seq!['R', 'a'],
        85 => seq!['R', 'b'],
        86 => seq!['R', 'e'],
        87 => seq!['R', 'f'],
        88 => seq!['R', 'g'],
        89 => seq!['R', 'h'],
        90 => seq!['R', 'n'],
        91 => seq!['R', 'u'],
        92 => seq!['S'],
        93 => seq!['S', 'b'],
        94 => seq!['S', 'c'],
        95 => seq!['S', 'e'],
        96 => seq!['S', 'g'],
        97 => seq!['S', 'i'],
        98 => seq!['S', 'm'],
        99 => seq!['S', 'n'],
        100 => seq!['S', 'r'],
        101 => seq!['T', 'a'],
        102 => seq!['T', 'b'],
        103 => seq!['T', 'c'],
        104 => seq!['T', 'e'],
        105 => seq!['T', 'h'],
        106 => seq!['T', 'i'],
        107 => seq!['T', 'l'],
        108 => seq!['T', 'm'],
        109 => seq!['T', 's'],
        110 => seq!['U'],
        111 => seq!['V'],
        112 => seq!['W'],
        113 => seq!['X', 'e'],
        114 => seq!['Y'],
        115 => seq!['Y', 'b'],
        116 => seq!['Z', 'n'],
        117 => seq!['Z', 'r'],
        _ => Seq::empty(),
    }
}

/// `s` is one of the 118 IUPAC element symbols.
pub open spec fn is_element_symbol(s: Seq<char>) -> bool {
    exists|i: u8| i < 118 && #[trigger] symbol_seq(i) == s
}

/// The element spelled `sym`: the first table entry with that symbol.
pub closed spec fn element_spelled(sym: Seq<char>) -> Element {
    choose|e: Element| e.spec_symbol() == sym && forall|j: u8| j < e.index() ==> #[trigger] symbol_seq(j) != sym
}

/// A number that orders symbols alphabetically: the first letter's code,
/// then the second's, a missing second letter counting as none.
pub open spec fn symbol_code(s: Seq<char>) -> int {
    if s.len() == 0 {
        0
    } else if s.len() == 1 {
        (s[0] as int) * 128
    } else {
        (s[0] as int) * 128 + (s[1] as int)
    }
}

/// Each table entry comes alphabetically after the one before it.
proof fn lemma_table_step(i: u8)
    requires
        i < 117,
    ensures
        symbol_code(symbol_seq(i)) < symbol_code(symbol_seq((i + 1) as u8)),
{
    if i >= 117 {
    } else if i == 0 {
        assert(symbol_code(symbol_seq(0)) < symbol_code(symbol_seq(1)));
    } else if i == 1 {
        assert(symbol_code(symbol_seq(1)) < symbol_code(symbol_seq(2)));
    } else if i == 2 {
        assert(symbol_code(symbol_seq(2)) < symbol_code(symbol_seq(3)));
    } else if i == 3 {
        assert(symbol_code(symbol_seq(3)) < symbol_code(symbol_seq(4)));
    } else if i == 4 {
        assert(symbol_code(symbol_seq(4)) < symbol_code(symbol_seq(5)));
    } else if i == 5 {
        assert(symbol_code(symbol_seq(5)) < symbol_code(symbol_seq(6)));
    } else if i == 6 {
        assert(symbol_code(symbol_seq(6)) < symbol_code(symbol_seq(7)));
    } else if i == 7 {
        assert(symbol_code(symbol_seq(7)) < symbol_code(symbol_seq(8)));
    } else if i == 8 {
        assert(symbol_code(symbol_seq(8)) < symbol_code(symbol_seq(9)));
    } else if i == 9 {
        assert(symbol_code(symbol_seq(9)) < symbol_code(symbol_seq(10)));
    } else if i == 10 {
        assert(symbol_code(symbol_seq(10)) < symbol_code(symbol_seq(11)));
    } else if i == 11 {
        assert(symbol_code(symbol_seq(11)) < symbol_code(symbol_seq(12)));
    } else if i == 12 {
        assert(symbol_code(symbol_seq(12)) < symbol_code(symbol_seq(13)));
    } else if i == 13 {
        assert(symbol_code(symbol_seq(13)) < symbol_code(symbol_seq(14)));
    } else if i == 14 {
        assert(symbol_code(symbol_seq(14)) < symbol_code(symbol_seq(15)));
    } else if i == 15 {
        assert(symbol_code(symbol_seq(15)) < symbol_code(symbol_seq(16)));
    } else if i == 16 {
        assert(symbol_code(symbol_seq(16)) < symbol_code(symbol_seq(17)));
    } else if i == 17 {
        assert(symbol_code(symbol_seq(17)) < symbol_code(symbol_seq(18)));
    } else if i == 18 {
        assert(symbol_code(symbol_seq(18)) < symbol_code(symbol_seq(19)));
    } else if i == 19 {
        assert(symbol_code(symbol_seq(19)) < symbol_code(symbol_seq(20)));
    } else if i == 20 {
        assert(symbol_code(symbol_seq(20)) < symbol_code(symbol_seq(21)));
    } else if i == 21 {
        assert(symbol_code(symbol_seq(21)) < symbol_code(symbol_seq(22)));
    } else if i == 22 {
        assert(symbol_code(symbol_seq(22)) < symbol_code(symbol_seq(23)));
    } else if i == 23 {
        assert(symbol_code(symbol_seq(23)) < symbol_code(symbol_seq(24)));
    } else if i == 24 {
        assert(symbol_code(symbol_seq(24)) < symbol_code(symbol_seq(25)));
    } else if i == 25 {
        assert(symbol_code(symbol_seq(25)) < symbol_code(symbol_seq(26)));
    } else if i == 26 {
        assert(symbol_code(symbol_seq(26)) < symbol_code(symbol_seq(27)));
    } else if i == 27 {
        assert(symbol_code(symbol_seq(27)) < symbol_code(symbol_seq(28)));
    } else if i == 28 {
        assert(symbol_code(symbol_seq(28)) < symbol_code(symbol_seq(29)));
    } else if i == 29 {
        assert(symbol_code(symbol_seq(29)) < symbol_code(symbol_seq(30)));
    } else if i == 30 {
        assert(symbol_code(symbol_seq(30)) < symbol_code(symbol_seq(31)));
    } else if i == 31 {
        assert(symbol_code(symbol_seq(31)) < symbol_code(symbol_seq(32)));
    } else if i == 32 {
        assert(symbol_code(symbol_seq(32)) < symbol_code(symbol_seq(33)));
    } else if i == 33 {
        assert(symbol_code(symbol_seq(33)) < symbol_code(symbol_seq(34)));
    } else if i == 34 {
        assert(symbol_code(symbol_seq(34)) < symbol_code(symbol_seq(35)));
    } else if i == 35 {
        assert(symbol_code(symbol_seq(35)) < symbol_code(symbol_seq(36)));
    } else if i == 36 {
        assert(symbol_code(symbol_seq(36)) < symbol_code(symbol_seq(37)));
    } else if i == 37 {
        assert(symbol_code(symbol_seq(37)) < symbol_code(symbol_seq(38)));
    } else if i == 38 {
        assert(symbol_code(symbol_seq(38)) < symbol_code(symbol_seq(39)));
    } else if i == 39 {
        assert(symbol_code(symbol_seq(39)) < symbol_code(symbol_seq(40)));
    } else if i == 40 {
        assert(symbol_code(symbol_seq(40)) < symbol_code(symbol_seq(41)));
    } else if i == 41 {
        assert(symbol_code(symbol_seq(41)) < symbol_code(symbol_seq(42)));
    } else if i == 42 {
        assert(symbol_code(symbol_seq(42)) < symbol_code(symbol_seq(43)));
    } else if i == 43 {
        assert(symbol_code(symbol_seq(43)) < symbol_code(symbol_seq(44)));
    } else if i == 44 {
        assert(symbol_code(symbol_seq(44)) < symbol_code(symbol_seq(45)));
    } else if i == 45 {
        assert(symbol_code(symbol_seq(45)) < symbol_code(symbol_seq(46)));
    } else if i == 46 {
        assert(symbol_code(symbol_seq(46)) < symbol_code(symbol_seq(47)));
    } else if i == 47 {
        assert(symbol_code(symbol_seq(47)) < symbol_code(symbol_seq(48)));
    } else if i == 48 {
        assert(symbol_code(symbol_seq(48)) < symbol_code(symbol_seq(49)));
    } else if i == 49 {
        assert(symbol_code(symbol_seq(49)) < symbol_code(symbol_seq(50)));
    } else if i == 50 {
        assert(symbol_code(symbol_seq(50)) < symbol_code(symbol_seq(51)));
    } else if i == 51 {
        assert(symbol_code(symbol_seq(51)) < symbol_code(symbol_seq(52)));
    } else if i == 52 {
        assert(symbol_code(symbol_seq(52)) < symbol_code(symbol_seq(53)));
    } else if i == 53 {
        assert(symbol_code(symbol_seq(53)) < symbol_code(symbol_seq(54)));
    } else if i == 54 {
        assert(symbol_code(symbol_seq(54)) < symbol_code(symbol_seq(55)));
    } else if i == 55 {
        assert(symbol_code(symbol_seq(55)) < symbol_code(symbol_seq(56)));
    } else if i == 56 {
        assert(symbol_code(symbol_seq(56)) < symbol_code(symbol_seq(57)));
    } else if i == 57 {
        assert(symbol_code(symbol_seq(57)) < symbol_code(symbol_seq(58)));
    } else if i == 58 {
        assert(symbol_code(symbol_seq(58)) < symbol_code(symbol_seq(59)));
    } else if i == 59 {
        assert(symbol_code(symbol_seq(59)) < symbol_code(symbol_seq(60)));
    } else if i == 60 {
        assert(symbol_code(symbol_seq(60)) < symbol_code(symbol_seq(61)));
    } else if i == 61 {
        assert(symbol_code(symbol_seq(61)) < symbol_code(symbol_seq(62)));
    } else if i == 62 {
        assert(symbol_code(symbol_seq(62)) < symbol_code(symbol_seq(63)));
    } else if i == 63 {
        assert(symbol_code(symbol_seq(63)) < symbol_code(symbol_seq(64)));
    } else if i == 64 {
        assert(symbol_code(symbol_seq(64)) < symbol_code(symbol_seq(65)));
    } else if i == 65 {
        assert(symbol_code(symbol_seq(65)) < symbol_code(symbol_seq(66)));
    } else if i == 66 {
        assert(symbol_code(symbol_seq(66)) < symbol_code(symbol_seq(67)));
    } else if i == 67 {
        assert(symbol_code(symbol_seq(67)) < symbol_code(symbol_seq(68)));
    } else if i == 68 {
        assert(symbol_code(symbol_seq(68)) < symbol_code(symbol_seq(69)));
    } else if i == 69 {
        assert(symbol_code(symbol_seq(69)) < symbol_code(symbol_seq(70)));
    } else if i == 70 {
        assert(symbol_code(symbol_seq(70)) < symbol_code(symbol_seq(71)));
    } else if i == 71 {
        assert(symbol_code(symbol_seq(71)) < symbol_code(symbol_seq(72)));
    } else if i == 72 {
        assert(symbol_code(symbol_seq(72)) < symbol_code(symbol_seq(73)));
    } else if i == 73 {
        assert(symbol_code(symbol_seq(73)) < symbol_code(symbol_seq(74)));
    } else if i == 74 {
        assert(symbol_code(symbol_seq(74)) < symbol_code(symbol_seq(75)));
    } else if i == 75 {
        assert(symbol_code(symbol_seq(75)) < symbol_code(symbol_seq(76)));
    } else if i == 76 {
        assert(symbol_code(symbol_seq(76)) < symbol_code(symbol_seq(77)));
    } else if i == 77 {
        assert(symbol_code(symbol_seq(77)) < symbol_code(symbol_seq(78)));
    } else if i == 78 {
        assert(symbol_code(symbol_seq(78)) < symbol_code(symbol_seq(79)));
    } else if i == 79 {
        assert(symbol_code(symbol_seq(79)) < symbol_code(symbol_seq(80)));
    } else if i == 80 {
        assert(symbol_code(symbol_seq(80)) < symbol_code(symbol_seq(81)));
    } else if i == 81 {
        assert(symbol_code(symbol_seq(81)) < symbol_code(symbol_seq(82)));
    } else if i == 82 {
        assert(symbol_code(symbol_seq(82)) < symbol_code(symbol_seq(83)));
    } else if i == 83 {
        assert(symbol_code(symbol_seq(83)) < symbol_code(symbol_seq(84)));
    } else if i == 84 {
        assert(symbol_code(symbol_seq(84)) < symbol_code(symbol_seq(85)));
    } else if i == 85 {
        assert(symbol_code(symbol_seq(85)) < symbol_code(symbol_seq(86)));
    } else if i == 86 {
        assert(symbol_code(symbol_seq(86)) < symbol_code(symbol_seq(87)));
    } else if i == 87 {
        assert(symbol_code(symbol_seq(87)) < symbol_code(symbol_seq(88)));
    } else if i == 88 {
        assert(symbol_code(symbol_seq(88)) < symbol_code(symbol_seq(89)));
    } else if i == 89 {
        assert(symbol_code(symbol_seq(89)) < symbol_code(symbol_seq(90)));
    } else if i == 90 {
        assert(symbol_code(symbol_seq(90)) < symbol_code(symbol_seq(91)));
    } else if i == 91 {
        assert(symbol_code(symbol_seq(91)) < symbol_code(symbol_seq(92)));
    } else if i == 92 {
        assert(symbol_code(symbol_seq(92)) < symbol_code(symbol_seq(93)));
    } else if i == 93 {
        assert(symbol_code(symbol_seq(93)) < symbol_code(symbol_seq(94)));
    } else if i == 94 {
        assert(symbol_code(symbol_seq(94)) < symbol_code(symbol_seq(95)));
    } else if i == 95 {
        assert(symbol_code(symbol_seq(95)) < symbol_code(symbol_seq(96)));
    } else if i == 96 {
        assert(symbol_code(symbol_seq(96)) < symbol_code(symbol_seq(97)));
    } else if i == 97 {
        assert(symbol_code(symbol_seq(97)) < symbol_code(symbol_seq(98)));
    } else if i == 98 {
        assert(symbol_code(symbol_seq(98)) < symbol_code(symbol_seq(99)));
    } else if i == 99 {
        assert(symbol_code(symbol_seq(99)) < symbol_code(symbol_seq(100)));
    } else if i == 100 {
        assert(symbol_code(symbol_seq(100)) < symbol_code(symbol_seq(101)));
    } else if i == 101 {
        assert(symbol_code(symbol_seq(101)) < symbol_code(symbol_seq(102)));
    } else if i == 102 {
        assert(symbol_code(symbol_seq(102)) < symbol_code(symbol_seq(103)));
    } else if i == 103 {
        assert(symbol_code(symbol_seq(103)) < symbol_code(symbol_seq(104)));
    } else if i == 104 {
        assert(symbol_code(symbol_seq(104)) < symbol_code(symbol_seq(105)));
    } else if i == 105 {
        assert(symbol_code(symbol_seq(105)) < symbol_code(symbol_seq(106)));
    } else if i == 106 {
        assert(symbol_code(symbol_seq(106)) < symbol_code(symbol_seq(107)));
    } else if i == 107 {
        assert(symbol_code(symbol_seq(107)) < symbol_code(symbol_seq(108)));
    } else if i == 108 {
        assert(symbol_code(symbol_seq(108)) < symbol_code(symbol_seq(109)));
    } else if i == 109 {
        assert(symbol_code(symbol_seq(109)) < symbol_code(symbol_seq(110)));
    } else if i == 110 {
        assert(symbol_code(symbol_seq(110)) < symbol_code(symbol_seq(111)));
    } else if i == 111 {
        assert(symbol_code(symbol_seq(111)) < symbol_code(symbol_seq(112)));
    } else if i == 112 {
        assert(symbol_code(symbol_seq(112)) < symbol_code(symbol_seq(113)));
    } else if i == 113 {
        assert(symbol_code(symbol_seq(113)) < symbol_code(symbol_seq(114)));
    } else if i == 114 {
        assert(symbol_code(symbol_seq(114)) < symbol_code(symbol_seq(115)));
    } else if i == 115 {
        assert(symbol_code(symbol_seq(115)) < symbol_code(symbol_seq(116)));
    } else if i == 116 {
        assert(symbol_code(symbol_seq(116)) < symbol_code(symbol_seq(117)));
    }
}

/// Later table entries come alphabetically later.
proof fn lemma_table_ascending(i: u8, j: u8)
    requires
        i < j < 118,
    ensures
        symbol_code(symbol_seq(i)) < symbol_code(symbol_seq(j)),
    decreases j - i,
{
    lemma_table_step((j - 1) as u8);
    if j - 1 > i {
        lemma_table_ascending(i, (j - 1) as u8);
    }
}

/// No symbol occurs twice in the table.
pub proof fn lemma_symbols_distinct(i: u8, j: u8)
    requires
        i < 118,
        j < 118,
        symbol_seq(i) == symbol_seq(j),
    ensures
        i == j,
{
    if i < j {
        lemma_table_ascending(i, j);
    } else if j < i {
        lemma_table_ascending(j, i);
    }
}

/// A validated element symbol. Construction is the only way to get one, so
/// every `Element` names a real periodic-table symbol.
#[derive(Debug, Clone, Copy, PartialEq, Eq, PartialOrd, Ord, Hash)]
pub struct Element(u8);

impl Element {
    /// The element's position in the symbol table.
    pub closed spec fn index(self) -> u8 {
        self.0
    }

    /// The element's symbol.
    pub open spec fn spec_symbol(self) -> Seq<char> {
        symbol_seq(self.index())
    }

    #[verifier::type_invariant]
    spec fn in_table(self) -> bool {
        self.0 < 118
    }

    /// Elements are identified by their index.
    pub proof fn lemma_index_injective(a: Element, b: Element)
        ensures
            a.index() == b.index() ==> a == b,
    {
    }

    /// An element's symbol is a valid symbol and identifies the element, so
    /// validating the symbol of an element gives back that element.
    pub proof fn lemma_symbol_identifies(a: Element, b: Element)
        requires
            a.index() < 118,
            b.index() < 118,
        ensures
            is_element_symbol(a.spec_symbol()),
            a.spec_symbol() == b.spec_symbol() ==> a == b,
    {
        assert(symbol_seq(a.index()) == a.spec_symbol());
        if a.spec_symbol() == b.spec_symbol() {
            lemma_symbols_distinct(a.index(), b.index());
        }
    }

    /// Validates `symbol` against the 118 IUPAC element symbols.
    pub fn new(symbol: &str) -> (r: Result<Element, GugenError>)
        ensures
            r is Ok <==> is_element_symbol(symbol@),
            r is Ok ==> r->Ok_0.spec_symbol() == symbol@ && r->Ok_0.index() < 118,
            r is Err ==> (r->Err_0 matches GugenError::InvalidElementSymbol(s) && s@ == symbol@),
    {
        let n = symbol.unicode_len();
        if n >= 1 && n <= 2 {
            let c0 = symbol.get_char(0);
            let c1 = if n == 2 { symbol.get_char(1) } else { c0 };
            let mut i: u8 = 0;
            while i < 118
                invariant
                    i <= 118,
                    n == symbol@.len(),
                    1 <= n <= 2,
                    c0 == symbol@[0],
                    n == 2 ==> c1 == symbol@[1],
                    forall|j: u8| j < i ==> #[trigger] symbol_seq(j) != symbol@,
                decreases 118 - i,
            {
                let s = symbol_at(i);
                let m = s.unicode_len();
                if m == n {
                    let same = s.get_char(0) == c0 && (n == 1 || s.get_char(1) == c1);
                    if same {
                        assert(s@ =~= symbol@);
                        return Ok(Element(i));
                    }
                    assert(s@ != symbol@) by {
                        if s@ == symbol@ {
                            assert(s@[0] == symbol@[0]);
                            if n == 2 {
                                assert(s@[1] == symbol@[1]);
                            }
                        }
                    }
                }
                i = i + 1;
            }
        }
        proof {
            if is_element_symbol(symbol@) {
                let j = choose|j: u8| j < 118 && #[trigger] symbol_seq(j) == symbol@;
                assert(1 <= symbol_seq(j).len() <= 2);
            }
        }
        Err(GugenError::InvalidElementSymbol(String::from_str(symbol)))
    }

    /// The element spelled by `v`, if it is one of the 118 symbols.
    pub fn from_chars(v: &Vec<char>) -> (r: Option<Element>)
        ensures
            r is Some <==> is_element_symbol(v@),
            r matches Some(e) ==> e.spec_symbol() == v@ && e == element_spelled(v@),
    {
        let n = v.len();
        if n >= 1 && n <= 2 {
            let c0 = v[0];
            let c1 = if n == 2 { v[1] } else { c0 };
            let mut i: u8 = 0;
            while i < 118
                invariant
                    i <= 118,
                    n == v@.len(),
                    1 <= n <= 2,
                    c0 == v@[0],
                    n == 2 ==> c1 == v@[1],
                    forall|j: u8| j < i ==> #[trigger] symbol_seq(j) != v@,
                decreases 118 - i,
            {
                let s = symbol_at(i);
                let m = s.unicode_len();
                if m == n {
                    let same = s.get_char(0) == c0 && (n == 1 || s.get_char(1) == c1);
                    if same {
                        assert(s@ =~= v@);
                        proof {
                            lemma_element_spelled(v@, i);
                        }
                        return Some(Element(i));
                    }
                    assert(s@ != v@) by {
                        if s@ == v@ {
                            assert(s@[0] == v@[0]);
                            if n == 2 {
                                assert(s@[1] == v@[1]);
                            }
                        }
                    }
                }
                i = i + 1;
            }
        }
        proof {
            if is_element_symbol(v@) {
                let j = choose|j: u8| j < 118 && #[trigger] symbol_seq(j) == v@;
                assert(1 <= symbol_seq(j).len() <= 2);
            }
        }
        None
    }

    /// The element's symbol.
    pub fn symbol(&self) -> (r: &'static str)
        ensures
            r@ == self.spec_symbol(),
            self.index() < 118,
    {
        proof {
            use_type_invariant(self);
        }
        symbol_at(self.0)
    }

    /// The element at table position `i`.
    pub(crate) fn from_index(i: u8) -> (r: Element)
        requires
            i < 118,
        ensures
            r.index() == i,
    {
        Element(i)
    }

    /// The element's table index (symbol order).
    pub fn index_u8(&self) -> (r: u8)
        ensures
            r == self.index(),
            r < 118,
    {
        proof {
            use_type_invariant(self);
        }
        self.0
    }
}

/// The first table position spelling `sym` names `element_spelled(sym)`.
proof fn lemma_element_spelled(sym: Seq<char>, i: u8)
    requires
        i < 118,
        symbol_seq(i) == sym,
        forall|j: u8| j < i ==> #[trigger] symbol_seq(j) != sym,
    ensures
        element_spelled(sym) == Element(i),
{
    let w = Element(i);
    assert(w.spec_symbol() == sym && forall|j: u8| j < w.index() ==> #[trigger] symbol_seq(j) != sym);
    let e = element_spelled(sym);
    assert(e.spec_symbol() == sym);
    if e.index() < i {
        assert(symbol_seq(e.index()) != sym);
    } else if e.index() > i {
        assert(symbol_seq(i) != sym);
    }
}

/// The symbol at table position `i`.
fn symbol_at(i: u8) -> (r: &'static str)
    requires
        i < 118,
    ensures
        r@ == symbol_seq(i),
{
    match i {
        0 => {
                proof {
                    reveal_strlit("Ac");
                }
                "Ac"
            },
            1 => {
                proof {
                    reveal_strlit("Ag");
                }
                "Ag"
            },
            2 => {
                proof {
                    reveal_strlit("Al");
                }
                "Al"
            },
            3 => {
                proof {
                    reveal_strlit("Am");
                }
                "Am"
            },
            4 => {
                proof {
                    reveal_strlit("Ar");
                }
                "Ar"
            },
            5 => {
                proof {
                    reveal_strlit("As");
                }
                "As"
            },
            6 => {
                proof {
                    reveal_strlit("At");
                }
                "At"
            },
            7 => {
                proof {
                    reveal_strlit("Au");
                }
                "Au"
            },
            8 => {
                proof {
                    reveal_strlit("B");
                }
                "B"
            },
            9 => {
                proof {
                    reveal_strlit("Ba");
                }
                "Ba"
            },
            10 => {
                proof {
                    reveal_strlit("Be");
                }
                "Be"
            },
            11 => {
                proof {
                    reveal_strlit("Bh");
                }
                "Bh"
            },
            12 => {
                proof {
                    reveal_strlit("Bi");
                }
                "Bi"
            },
            13 => {
                proof {
                    reveal_strlit("Bk");
                }
                "Bk"
            },
            14 => {
                proof {
                    reveal_strlit("Br");
                }
                "Br"
            },
            15 => {
                proof {
                    reveal_strlit("C");
                }
                "C"
            },
            16 => {
                proof {
                    reveal_strlit("Ca");
                }
                "Ca"
            },
            17 => {
                proof {
                    reveal_strlit("Cd");
                }
                "Cd"
            },
            18 => {
                proof {
                    reveal_strlit("Ce");
                }
                "Ce"
            },
            19 => {
                proof {
                    reveal_strlit("Cf");
                }
                "Cf"
            },
            20 => {
                proof {
                    reveal_strlit("Cl");
                }
                "Cl"
            },
            21 => {
                proof {
                    reveal_strlit("Cm");
                }
                "Cm"
            },
            22 => {
                proof {
                    reveal_strlit("Cn");
                }
                "Cn"
            },
            23 => {
                proof {
                    reveal_strlit("Co");
                }
                "Co"
            },
            24 => {
                proof {
                    reveal_strlit("Cr");
                }
                "Cr"
            },
            25 => {
                proof {
                    reveal_strlit("Cs");
                }
                "Cs"
            },
            26 => {
                proof {
                    reveal_strlit("Cu");
                }
                "Cu"
            },
            27 => {
                proof {
                    reveal_strlit("Db");
                }
                "Db"
            },
            28 => {
                proof {
                    reveal_strlit("Ds");
                }
                "Ds"
            },
            29 => {
                proof {
                    reveal_strlit("Dy");
                }
                "Dy"
            },
            30 => {
                proof {
                    reveal_strlit("Er");
                }
                "Er"
            },
            31 => {
                proof {
                    reveal_strlit("Es");
                }
                "Es"
            },
            32 => {
                proof {
                    reveal_strlit("Eu");
                }
                "Eu"
            },
            33 => {
                proof {
                    reveal_strlit("F");
                }
                "F"
            },
            34 => {
                proof {
                    reveal_strlit("Fe");
                }
                "Fe"
            },
            35 => {
                proof {
                    reveal_strlit("Fl");
                }
                "Fl"
            },
            36 => {
                proof {
                    reveal_strlit("Fm");
                }
                "Fm"
            },
            37 => {
                proof {
                    reveal_strlit("Fr");
                }
                "Fr"
            },
            38 => {
                proof {
                    reveal_strlit("Ga");
                }
                "Ga"
            },
            39 => {
                proof {
                    reveal_strlit("Gd");
                }
                "Gd"
            },
            40 => {
                proof {
                    reveal_strlit("Ge");
                }
                "Ge"
            },
            41 => {
                proof {
                    reveal_strlit("H");
                }
                "H"
            },
            42 => {
                proof {
                    reveal_strlit("He");
                }
                "He"
            },
            43 => {
                proof {
                    reveal_strlit("Hf");
                }
                "Hf"
            },
            44 => {
                proof {
                    reveal_strlit("Hg");
                }
                "Hg"
            },
            45 => {
                proof {
                    reveal_strlit("Ho");
                }
                "Ho"
            },
            46 => {
                proof {
                    reveal_strlit("Hs");
                }
                "Hs"
            },
            47 => {
                proof {
                    reveal_strlit("I");
                }
                "I"
            },
            48 => {
                proof {
                    reveal_strlit("In");
                }
                "In"
            },
            49 => {
                proof {
                    reveal_strlit("Ir");
                }
                "Ir"
            },
            50 => {
                proof {
                    reveal_strlit("K");
                }
                "K"
            },
            51 => {
                proof {
                    reveal_strlit("Kr");
                }
                "Kr"
            },
            52 => {
                proof {
                    reveal_strlit("La");
                }
                "La"
            },
            53 => {
                proof {
                    reveal_strlit("Li");
                }
                "Li"
            },
            54 => {
                proof {
                    reveal_strlit("Lr");
                }
                "Lr"
            },
            55 => {
                proof {
                    reveal_strlit("Lu");
                }
                "Lu"
            },
            56 => {
                proof {
                    reveal_strlit("Lv");
                }
                "Lv"
            },
            57 => {
                proof {
                    reveal_strlit("Mc");
                }
                "Mc"
            },
            58 => {
                proof {
                    reveal_strlit("Md");
                }
                "Md"
            },
            59 => {
                proof {
                    reveal_strlit("Mg");
                }
                "Mg"
            },
            60 => {
                proof {
                    reveal_strlit("Mn");
                }
                "Mn"
            },
            61 => {
                proof {
                    reveal_strlit("Mo");
                }
                "Mo"
            },
            62 => {
                proof {
                    reveal_strlit("Mt");
                }
                "Mt"
            },
            63 => {
                proof {
                    reveal_strlit("N");
                }
                "N"
            },
            64 => {
                proof {
                    reveal_strlit("Na");
                }
                "Na"
            },
            65 => {
                proof {
                    reveal_strlit("Nb");
                }
                "Nb"
            },
            66 => {
                proof {
                    reveal_strlit("Nd");
                }
                "Nd"
            },
            67 => {
                proof {
                    reveal_strlit("Ne");
                }
                "Ne"
            },
            68 => {
                proof {
                    reveal_strlit("Nh");
                }
                "Nh"
            },
            69 => {
                proof {
                    reveal_strlit("Ni");
                }
                "Ni"
            },
            70 => {
                proof {
                    reveal_strlit("No");
                }
                "No"
            },
            71 => {
                proof {
                    reveal_strlit("Np");
                }
                "Np"
            },
            72 => {
                proof {
                    reveal_strlit("O");
                }
                "O"
            },
            73 => {
                proof {
                    reveal_strlit("Og");
                }
                "Og"
            },
            74 => {
                proof {
                    reveal_strlit("Os");
                }
                "Os"
            },
            75 => {
                proof {
                    reveal_strlit("P");
                }
                "P"
            },
            76 => {
                proof {
                    reveal_strlit("Pa");
                }
                "Pa"
            },
            77 => {
                proof {
                    reveal_strlit("Pb");
                }
                "Pb"
            },
            78 => {
                proof {
                    reveal_strlit("Pd");
                }
                "Pd"
            },
            79 => {
                proof {
                    reveal_strlit("Pm");
                }
                "Pm"
            },
            80 => {
                proof {
                    reveal_strlit("Po");
                }
                "Po"
            },
            81 => {
                proof {
                    reveal_strlit("Pr");
                }
                "Pr"
            },
            82 => {
                proof {
                    reveal_strlit("Pt");
                }
                "Pt"
            },
            83 => {
                proof {
                    reveal_strlit("Pu");
                }
                "Pu"
            },
            84 => {
                proof {
                    reveal_strlit("Ra");
                }
                "Ra"
            },
            85 => {
                proof {
                    reveal_strlit("Rb");
                }
                "Rb"
            },
            86 => {
                proof {
                    reveal_strlit("Re");
                }
                "Re"
            },
            87 => {
                proof {
                    reveal_strlit("Rf");
                }
                "Rf"
            },
            88 => {
                proof {
                    reveal_strlit("Rg");
                }
                "Rg"
            },
            89 => {
                proof {
                    reveal_strlit("Rh");
                }
                "Rh"
            },
            90 => {
                proof {
                    reveal_strlit("Rn");
                }
                "Rn"
            },
            91 => {
                proof {
                    reveal_strlit("Ru");
                }
                "Ru"
            },
            92 => {
                proof {
                    reveal_strlit("S");
                }
                "S"
            },
            93 => {
                proof {
                    reveal_strlit("Sb");
                }
                "Sb"
            },
            94 => {
                proof {
                    reveal_strlit("Sc");
                }
                "Sc"
            },
            95 => {
                proof {
                    reveal_strlit("Se");
                }
                "Se"
            },
            96 => {
                proof {
                    reveal_strlit("Sg");
                }
                "Sg"
            },
            97 => {
                proof {
                    reveal_strlit("Si");
                }
                "Si"
            },
            98 => {
                proof {
                    reveal_strlit("Sm");
                }
                "Sm"
            },
            99 => {
                proof {
                    reveal_strlit("Sn");
                }
                "Sn"
            },
            100 => {
                proof {
                    reveal_strlit("Sr");
                }
                "Sr"
            },
            101 => {
                proof {
                    reveal_strlit("Ta");
                }
                "Ta"
            },
            102 => {
                proof {
                    reveal_strlit("Tb");
                }
                "Tb"
            },
            103 => {
                proof {
                    reveal_strlit("Tc");
                }
                "Tc"
            },
            104 => {
                proof {
                    reveal_strlit("Te");
                }
                "Te"
            },
            105 => {
                proof {
                    reveal_strlit("Th");
                }
                "Th"
            },
            106 => {
                proof {
                    reveal_strlit("Ti");
                }
                "Ti"
            },
            107 => {
                proof {
                    reveal_strlit("Tl");
                }
                "Tl"
            },
            108 => {
                proof {
                    reveal_strlit("Tm");
                }
                "Tm"
            },
            109 => {
                proof {
                    reveal_strlit("Ts");
                }
                "Ts"
            },
            110 => {
                proof {
                    reveal_strlit("U");
                }
                "U"
            },
            111 => {
                proof {
                    reveal_strlit("V");
                }
                "V"
            },
            112 => {
                proof {
                    reveal_strlit("W");
                }
                "W"
            },
            113 => {
                proof {
                    reveal_strlit("Xe");
                }
                "Xe"
            },
            114 => {
                proof {
                    reveal_strlit("Y");
                }
                "Y"
            },
            115 => {
                proof {
                    reveal_strlit("Yb");
                }
                "Yb"
            },
            116 => {
                proof {
                    reveal_strlit("Zn");
                }
                "Zn"
            },
            117 => {
                proof {
                    reveal_strlit("Zr");
                }
                "Zr"
            },
            _ => "Og",
        }
}

} // verus!

verus! {

/// Last-write-wins map of an element/amount listing: a later entry for the
/// same element replaces an earlier one.
pub open spec fn pairs_map(s: Seq<(Element, Frac)>) -> Map<Element, Frac>
    decreases s.len(),
{
    if s.len() == 0 {
        Map::empty()
    } else {
        pairs_map(s.drop_last()).insert(s.last().0, s.last().1)
    }
}

/// Strictly increasing element indices: each element at most once, in
/// symbol order.
pub open spec fn strictly_sorted(s: Seq<(Element, Frac)>) -> bool {
    forall|i: int, j: int| 0 <= i < j < s.len() ==> s[i].0.index() < s[j].0.index()
}

/// Map of a listing whose elements are distinct.
pub open spec fn listing_map(s: Seq<(Element, Frac)>) -> Map<Element, Frac> {
    Map::new(
        |e: Element| exists|i: int| 0 <= i < s.len() && s[i].0 == e,
        |e: Element| s[choose|i: int| 0 <= i < s.len() && s[i].0 == e].1,
    )
}

/// Every amount is a well-formed, strictly positive rational.
pub open spec fn all_positive(s: Seq<(Element, Frac)>) -> bool {
    forall|i: int| 0 <= i < s.len() ==> (#[trigger] s[i]).1.wf() && s[i].1@.0 > 0
}

/// An elemental composition: element -> exact positive amount. Holds each
/// element once, in symbol order, so everything built from a composition is
/// independent of the order its elements were supplied in.
#[derive(Debug, Clone, PartialEq, Eq)]
pub struct Composition {
    amounts: Vec<(Element, Frac)>,
}

/// In a sorted listing, the map of the listing holds each entry.
pub proof fn lemma_listing_lookup(s: Seq<(Element, Frac)>, i: int)
    requires
        strictly_sorted(s),
        0 <= i < s.len(),
    ensures
        listing_map(s).contains_key(s[i].0),
        listing_map(s)[s[i].0] == s[i].1,
{
    let e = s[i].0;
    assert(exists|k: int| 0 <= k < s.len() && s[k].0 == e);
    let k = choose|k: int| 0 <= k < s.len() && s[k].0 == e;
    if k != i {
        if k < i {
            assert(s[k].0.index() < s[i].0.index());
        } else {
            assert(s[i].0.index() < s[k].0.index());
        }
    }
}

/// `e` occurs in the listing.
pub open spec fn lists(s: Seq<(Element, Frac)>, e: Element) -> bool {
    exists|i: int| 0 <= i < s.len() && s[i].0 == e
}

/// Two sorted listings of the same elements list them in the same order.
pub proof fn lemma_sorted_same_elements(s: Seq<(Element, Frac)>, t: Seq<(Element, Frac)>)
    requires
        strictly_sorted(s),
        strictly_sorted(t),
        forall|e: Element| #[trigger] lists(s, e) <==> lists(t, e),
    ensures
        s.len() == t.len(),
        forall|i: int| 0 <= i < s.len() ==> s[i].0 == t[i].0,
    decreases s.len() + t.len(),
{
    if s.len() == 0 {
        if t.len() > 0 {
            assert(lists(t, t[0].0));
            assert(lists(s, t[0].0));
        }
    } else if t.len() == 0 {
        assert(lists(s, s[0].0));
        assert(lists(t, s[0].0));
    } else {
        let x = s.last().0;
        let y = t.last().0;
        assert(lists(s, x));
        assert(lists(t, y));
        assert(lists(t, x));
        assert(lists(s, y));
        let j = choose|j: int| 0 <= j < t.len() && t[j].0 == x;
        let k = choose|k: int| 0 <= k < s.len() && s[k].0 == y;
        assert(x.index() <= y.index()) by {
            if j < t.len() - 1 {
                assert(t[j].0.index() < t[t.len() - 1].0.index());
            }
        }
        assert(y.index() <= x.index()) by {
            if k < s.len() - 1 {
                assert(s[k].0.index() < s[s.len() - 1].0.index());
            }
        }
        Element::lemma_index_injective(x, y);
        let s1 = s.drop_last();
        let t1 = t.drop_last();
        assert forall|e: Element| #[trigger] lists(s1, e) <==> lists(t1, e) by {
            if lists(s1, e) {
                let a = choose|a: int| 0 <= a < s1.len() && s1[a].0 == e;
                assert(s[a].0 == e);
                assert(lists(s, e));
                assert(lists(t, e));
                assert(s[a].0.index() < x.index());
                let b = choose|b: int| 0 <= b < t.len() && t[b].0 == e;
                assert(b != t.len() - 1);
                assert(t1[b].0 == e);
            }
            if lists(t1, e) {
                let a = choose|a: int| 0 <= a < t1.len() && t1[a].0 == e;
                assert(t[a].0 == e);
                assert(lists(t, e));
                assert(lists(s, e));
                assert(t[a].0.index() < y.index());
                let b = choose|b: int| 0 <= b < s.len() && s[b].0 == e;
                assert(b != s.len() - 1);
                assert(s1[b].0 == e);
            }
        }
        lemma_sorted_same_elements(s1, t1);
        assert forall|i: int| 0 <= i < s.len() implies s[i].0 == t[i].0 by {
            if i < s.len() - 1 {
                assert(s[i] == s1[i] && t[i] == t1[i]);
            }
        }
    }
}

impl View for Composition {
    type V = Map<Element, Frac>;

    closed spec fn view(&self) -> Map<Element, Frac> {
        listing_map(self.amounts@)
    }
}

impl Composition {
    /// The representation invariant: at least one element, each once in
    /// symbol order, every amount a positive canonical rational.
    pub closed spec fn wf(self) -> bool {
        &&& self.amounts@.len() > 0
        &&& strictly_sorted(self.amounts@)
        &&& all_positive(self.amounts@)
    }

    /// The listing in symbol order.
    pub closed spec fn listing(self) -> Seq<(Element, Frac)> {
        self.amounts@
    }

    /// What a well-formed composition's listing and view say.
    pub proof fn lemma_wf(self)
        requires
            self.wf(),
        ensures
            self.listing().len() > 0,
            strictly_sorted(self.listing()),
            all_positive(self.listing()),
            self@ == listing_map(self.listing()),
            forall|e: Element| #[trigger]
                self@.contains_key(e) ==> self@[e].wf() && self@[e]@.0 > 0,
    {
        assert forall|e: Element| #[trigger] self@.contains_key(e) implies self@[e].wf()
            && self@[e]@.0 > 0 by {
            let i = choose|i: int| 0 <= i < self.amounts@.len() && self.amounts@[i].0 == e;
            lemma_listing_lookup(self.amounts@, i);
        }
    }

    /// Two well-formed compositions with the same elements list them in the
    /// same order; with the same amounts as well, their listings are equal.
    pub proof fn lemma_listing_determined(a: Composition, b: Composition)
        requires
            a.wf(),
            b.wf(),
            a@.dom() == b@.dom(),
        ensures
            a.listing().len() == b.listing().len(),
            forall|i: int| 0 <= i < a.listing().len() ==> a.listing()[i].0 == b.listing()[i].0,
            forall|i: int|
                0 <= i < a.listing().len() ==> a@[#[trigger] a.listing()[i].0] == a.listing()[i].1,
            a@ == b@ ==> a.listing() == b.listing(),
    {
        let s = a.listing();
        let t = b.listing();
        assert forall|e: Element| #[trigger] lists(s, e) <==> lists(t, e) by {
            assert(lists(s, e) <==> a@.contains_key(e));
            assert(lists(t, e) <==> b@.contains_key(e));
        }
        lemma_sorted_same_elements(s, t);
        assert forall|i: int| 0 <= i < s.len() implies a@[#[trigger] s[i].0] == s[i].1 by {
            lemma_listing_lookup(s, i);
        }
        if a@ == b@ {
            assert forall|i: int| 0 <= i < s.len() implies s[i] == t[i] by {
                lemma_listing_lookup(s, i);
                lemma_listing_lookup(t, i);
            }
            assert(s =~= t);
        }
    }

    /// Builds a composition from element/amount pairs. A later pair for an
    /// element replaces an earlier one. Fails with `NonPositiveAmount` for
    /// the first pair whose amount is not strictly positive, otherwise with
    /// `EmptyComposition` when no pair is given.
    pub fn new(amounts: Vec<(Element, Frac)>) -> (r: Result<Composition, GugenError>)
        requires
            forall|i: int| 0 <= i < amounts@.len() ==> #[trigger] amounts@[i].1.wf(),
        ensures
            (r matches Err(GugenError::NonPositiveAmount { .. })) <==> exists|i: int|
                0 <= i < amounts@.len() && #[trigger] amounts@[i].1@.0 <= 0,
            r matches Err(GugenError::NonPositiveAmount { element, numerator, denominator })
                ==> exists|i: int|
                0 <= i < amounts@.len() && #[trigger] amounts@[i].1@.0 <= 0 && (forall|j: int|
                0 <= j < i ==> amounts@[j].1@.0 > 0) && element@ == amounts@[i].0.spec_symbol()
                && numerator == amounts@[i].1@.0 && denominator == amounts@[i].1@.1,
            (r matches Err(GugenError::EmptyComposition)) <==> amounts@.len() == 0,
            r is Err ==> (r matches Err(GugenError::NonPositiveAmount { .. })) || (r matches Err(
                GugenError::EmptyComposition,
            )),
            r is Ok ==> r->Ok_0.wf() && r->Ok_0@ == pairs_map(amounts@),
    {
        let mut sorted: Vec<(Element, Frac)> = Vec::new();
        let mut i: usize = 0;
        while i < amounts.len()
            invariant
                i <= amounts@.len(),
                forall|k: int| 0 <= k < amounts@.len() ==> #[trigger] amounts@[k].1.wf(),
                forall|k: int| 0 <= k < i ==> #[trigger] amounts@[k].1@.0 > 0,
                strictly_sorted(sorted@),
                all_positive(sorted@),
                listing_map(sorted@) == pairs_map(amounts@.take(i as int)),
                i > 0 ==> sorted@.len() > 0,
                i == 0 ==> sorted@.len() == 0,
            decreases amounts@.len() - i,
        {
            let (element, amount) = amounts[i];
            if amount.numerator() <= 0 {
                assert(amounts@[i as int].1@.0 <= 0);
                return Err(
                    GugenError::NonPositiveAmount {
                        element: String::from_str(element.symbol()),
                        numerator: amount.numerator(),
                        denominator: amount.denominator(),
                    },
                );
            }
            insert_sorted(&mut sorted, element, amount);
            proof {
                assert(amounts@.take(i + 1).drop_last() =~= amounts@.take(i as int));
            }
            i = i + 1;
        }
        if sorted.len() == 0 {
            assert(i == 0);
            return Err(GugenError::EmptyComposition);
        }
        proof {
            assert(amounts@.take(i as int) =~= amounts@);
        }
        Ok(Composition { amounts: sorted })
    }

    /// The amount of `element`, if present.
    pub fn amount_of(&self, element: Element) -> (r: Option<Frac>)
        requires
            self.wf(),
        ensures
            r == (if self@.contains_key(element) {
                Some(self@[element])
            } else {
                None
            }),
    {
        let mut i: usize = 0;
        while i < self.amounts.len()
            invariant
                i <= self.amounts@.len(),
                self.wf(),
                forall|k: int| 0 <= k < i ==> #[trigger] self.amounts@[k].0 != element,
            decreases self.amounts@.len() - i,
        {
            if self.amounts[i].0.index_u8() == element.index_u8() {
                proof {
                    Element::lemma_index_injective(self.amounts@[i as int].0, element);
                    lemma_listing_lookup(self.amounts@, i as int);
                }
                return Some(self.amounts[i].1);
            }
            i = i + 1;
        }
        None
    }

    /// The element/amount pairs in symbol order.
    pub fn pairs(&self) -> (r: Vec<(Element, Frac)>)
        requires
            self.wf(),
        ensures
            r@ == self.listing(),
    {
        let mut out: Vec<(Element, Frac)> = Vec::new();
        let mut i: usize = 0;
        while i < self.amounts.len()
            invariant
                i <= self.amounts@.len(),
                out@ == self.amounts@.take(i as int),
            decreases self.amounts@.len() - i,
        {
            out.push(self.amounts[i]);
            i = i + 1;
            assert(out@ =~= self.amounts@.take(i as int));
        }
        assert(self.amounts@.take(i as int) =~= self.amounts@);
        out
    }

    /// The elements in symbol order.
    pub fn elements(&self) -> (r: Vec<Element>)
        requires
            self.wf(),
        ensures
            r@.len() == self.listing().len(),
            forall|i: int| 0 <= i < r@.len() ==> #[trigger] r@[i] == self.listing()[i].0,
    {
        let mut out: Vec<Element> = Vec::new();
        let mut i: usize = 0;
        while i < self.amounts.len()
            invariant
                i <= self.amounts@.len(),
                out@.len() == i,
                forall|k: int| 0 <= k < i ==> #[trigger] out@[k] == self.amounts@[k].0,
            decreases self.amounts@.len() - i,
        {
            out.push(self.amounts[i].0);
            i = i + 1;
        }
        out
    }

    /// An independent copy with the same listing.
    pub fn duplicate(&self) -> (r: Composition)
        ensures
            r.listing() == self.listing(),
            r@ == self@,
            r.wf() == self.wf(),
    {
        let mut out: Vec<(Element, Frac)> = Vec::new();
        let mut i: usize = 0;
        while i < self.amounts.len()
            invariant
                i <= self.amounts@.len(),
                out@ == self.amounts@.take(i as int),
            decreases self.amounts@.len() - i,
        {
            out.push(self.amounts[i]);
            i = i + 1;
            assert(out@ =~= self.amounts@.take(i as int));
        }
        assert(self.amounts@.take(i as int) =~= self.amounts@);
        Composition { amounts: out }
    }

    /// Number of distinct elements.
    pub fn len(&self) -> (r: usize)
        requires
            self.wf(),
        ensures
            r == self.listing().len(),
            r > 0,
    {
        self.amounts.len()
    }

    /// Always `false` for a well-formed composition.
    pub fn is_empty(&self) -> (r: bool)
        requires
            self.wf(),
        ensures
            r == (self.listing().len() == 0),
            !r,
    {
        self.amounts.len() == 0
    }

    /// Structural equality: same elements with the same amounts.
    pub fn same_as(&self, other: &Composition) -> (r: bool)
        requires
            self.wf(),
            other.wf(),
        ensures
            r == (self.listing() == other.listing()),
    {
        if self.amounts.len() != other.amounts.len() {
            return false;
        }
        let mut i: usize = 0;
        while i < self.amounts.len()
            invariant
                i <= self.amounts@.len(),
                self.amounts@.len() == other.amounts@.len(),
                forall|k: int| 0 <= k < i ==> #[trigger] self.amounts@[k] == other.amounts@[k],
            decreases self.amounts@.len() - i,
        {
            let (e1, a1) = self.amounts[i];
            let (e2, a2) = other.amounts[i];
            if e1.index_u8() != e2.index_u8() || a1.numerator() != a2.numerator()
                || a1.denominator() != a2.denominator() {
                proof {
                    if self.amounts@[i as int] == other.amounts@[i as int] {
                        assert(e1 == e2 && a1 == a2);
                    }
                }
                return false;
            }
            proof {
                Element::lemma_index_injective(e1, e2);
                Frac::lemma_view_injective(a1, a2);
            }
            i = i + 1;
        }
        assert(self.amounts@ =~= other.amounts@);
        true
    }
}

/// Inserts `element -> amount` into a strictly sorted listing, replacing an
/// existing entry for the same element.
fn insert_sorted(v: &mut Vec<(Element, Frac)>, element: Element, amount: Frac)
    requires
        strictly_sorted(old(v)@),
        all_positive(old(v)@),
        amount.wf(),
        amount@.0 > 0,
    ensures
        strictly_sorted(final(v)@),
        all_positive(final(v)@),
        final(v)@.len() > 0,
        listing_map(final(v)@) == listing_map(old(v)@).insert(element, amount),
{
    let key = element.index_u8();
    let mut p: usize = 0;
    while p < v.len() && v[p].0.index_u8() < key
        invariant
            p <= v@.len(),
            v@ == old(v)@,
            forall|k: int| 0 <= k < p ==> (#[trigger] v@[k]).0.index() < key,
        decreases v@.len() - p,
    {
        p = p + 1;
    }
    let ghost s = v@;
    if p < v.len() && v[p].0.index_u8() == key {
        proof {
            Element::lemma_index_injective(v@[p as int].0, element);
        }
        v.set(p, (element, amount));
        proof {
            let t = v@;
            assert(t == s.update(p as int, (element, amount)));
            assert(strictly_sorted(t)) by {
                assert forall|i: int, j: int| 0 <= i < j < t.len() implies t[i].0.index()
                    < t[j].0.index() by {
                    assert(s[i].0.index() < s[j].0.index());
                }
            }
            assert forall|e: Element| #[trigger]
                listing_map(t).contains_key(e) == listing_map(s).insert(
                    element,
                    amount,
                ).contains_key(e) by {
                if e != element {
                    if exists|i: int| 0 <= i < s.len() && s[i].0 == e {
                        let i = choose|i: int| 0 <= i < s.len() && s[i].0 == e;
                        assert(t[i].0 == e);
                    }
                    if exists|i: int| 0 <= i < t.len() && t[i].0 == e {
                        let i = choose|i: int| 0 <= i < t.len() && t[i].0 == e;
                        assert(s[i].0 == e);
                    }
                } else {
                    assert(t[p as int].0 == e);
                }
            }
            assert forall|e: Element| #[trigger] listing_map(t).contains_key(e) implies listing_map(
                t,
            )[e] == listing_map(s).insert(element, amount)[e] by {
                let i = choose|i: int| 0 <= i < t.len() && t[i].0 == e;
                lemma_listing_lookup(t, i);
                if e != element {
                    lemma_listing_lookup(s, i);
                }
            }
            assert(listing_map(t) =~= listing_map(s).insert(element, amount));
        }
    } else {
        v.insert(p, (element, amount));
        proof {
            let t = v@;
            assert(t == s.insert(p as int, (element, amount)));
            assert(strictly_sorted(t)) by {
                assert forall|i: int, j: int| 0 <= i < j < t.len() implies t[i].0.index()
                    < t[j].0.index() by {
                    if p < s.len() {
                        assert(s[p as int].0.index() > key);
                    }
                }
            }
            assert forall|e: Element| #[trigger]
                listing_map(t).contains_key(e) == listing_map(s).insert(
                    element,
                    amount,
                ).contains_key(e) by {
                if e != element {
                    if exists|i: int| 0 <= i < s.len() && s[i].0 == e {
                        let i = choose|i: int| 0 <= i < s.len() && s[i].0 == e;
                        if i < p {
                            assert(t[i].0 == e);
                        } else {
                            assert(t[i + 1].0 == e);
                        }
                    }
                    if exists|i: int| 0 <= i < t.len() && t[i].0 == e {
                        let i = choose|i: int| 0 <= i < t.len() && t[i].0 == e;
                        if i < p {
                            assert(s[i].0 == e);
                        } else {
                            assert(s[i - 1].0 == e);
                        }
                    }
                } else {
                    assert(t[p as int].0 == e);
                }
            }
            assert forall|e: Element| #[trigger] listing_map(t).contains_key(e) implies listing_map(
                t,
            )[e] == listing_map(s).insert(element, amount)[e] by {
                let i = choose|i: int| 0 <= i < t.len() && t[i].0 == e;
                lemma_listing_lookup(t, i);
                if e != element {
                    if i < p {
                        lemma_listing_lookup(s, i);
                    } else {
                        lemma_listing_lookup(s, i - 1);
                    }
                }
            }
            assert(listing_map(t) =~= listing_map(s).insert(element, amount));
        }
    }
}

} // verus!
