//! Lattice helpers: conversion context, index mapping between input and surface, and the
//! width representations of candidates.
use std::collections::HashMap;

use vstd::prelude::*;

use crate::input::composing::{
    ComposingCount, ComposingText, ComposingV, InputTableRegistry, RegistryV, surface_map_spec,
};
use crate::text::{chars_of, push_char};

verus! {

broadcast use vstd::std_specs::hash::group_hash_axioms;

/// The right connection identifiers after which a prediction cannot follow (sorted).
pub const PREDICTION_UNUSABLE_RIGHT_IDS: [u16; 583] = [
    13, 14, 15, 16, 17, 18, 25, 26, 27, 28, 33, 34, 40, 41, 42, 46,
    47, 50, 56, 57, 58, 59, 60, 61, 62, 63, 64, 74, 75, 76, 77, 78,
    79, 86, 87, 88, 93, 94, 95, 99, 100, 103, 107, 108, 109, 110, 111, 112,
    119, 120, 121, 122, 127, 128, 134, 135, 136, 140, 141, 144, 369, 372, 373, 377,
    378, 379, 380, 381, 382, 389, 390, 391, 392, 397, 398, 401, 402, 404, 405, 406,
    408, 410, 411, 412, 413, 416, 417, 418, 419, 420, 421, 426, 427, 431, 433, 434,
    437, 438, 441, 442, 443, 447, 448, 450, 452, 455, 457, 462, 463, 464, 470, 471,
    472, 476, 477, 480, 483, 489, 490, 493, 494, 495, 496, 504, 527, 528, 533, 534,
    537, 540, 542, 548, 551, 553, 561, 562, 564, 565, 566, 567, 569, 571, 572, 574,
    575, 576, 577, 579, 581, 582, 585, 587, 589, 590, 591, 594, 595, 596, 597, 598,
    600, 601, 603, 604, 606, 609, 611, 614, 617, 618, 620, 621, 622, 624, 626, 627,
    629, 630, 631, 634, 636, 638, 641, 642, 644, 647, 648, 650, 653, 654, 656, 659,
    660, 662, 665, 666, 668, 671, 672, 673, 675, 676, 677, 678, 681, 682, 683, 684,
    687, 688, 691, 692, 693, 694, 697, 698, 699, 700, 703, 704, 707, 708, 709, 710,
    713, 714, 715, 716, 721, 722, 724, 725, 727, 729, 730, 732, 733, 736, 737, 739,
    740, 742, 744, 745, 747, 748, 750, 752, 753, 755, 756, 758, 760, 761, 763, 764,
    766, 768, 769, 770, 771, 774, 775, 776, 777, 778, 779, 780, 781, 782, 783, 786,
    787, 790, 791, 793, 794, 795, 798, 800, 801, 804, 805, 806, 807, 810, 811, 814,
    815, 816, 820, 821, 822, 823, 824, 825, 829, 830, 831, 835, 837, 840, 842, 845,
    847, 850, 852, 855, 859, 860, 862, 865, 866, 868, 869, 871, 872, 873, 875, 877,
    878, 880, 881, 884, 885, 887, 888, 889, 890, 891, 893, 895, 896, 898, 899, 900,
    901, 903, 905, 906, 908, 909, 910, 911, 913, 915, 916, 917, 918, 921, 922, 923,
    924, 925, 928, 929, 931, 932, 934, 935, 936, 939, 941, 943, 944, 945, 946, 947,
    948, 949, 950, 951, 952, 958, 959, 960, 961, 962, 963, 964, 965, 966, 967, 973,
    974, 975, 976, 977, 983, 984, 985, 986, 987, 988, 989, 990, 995, 996, 997, 998,
    999, 1000, 1001, 1002, 1007, 1008, 1009, 1010, 1015, 1016, 1017, 1018, 1021, 1022, 1023, 1024,
    1029, 1030, 1031, 1032, 1033, 1034, 1035, 1036, 1041, 1042, 1043, 1044, 1045, 1046, 1047, 1048,
    1057, 1058, 1060, 1061, 1063, 1065, 1066, 1067, 1068, 1069, 1070, 1071, 1072, 1073, 1074, 1075,
    1076, 1077, 1078, 1079, 1080, 1081, 1082, 1083, 1084, 1085, 1086, 1087, 1088, 1089, 1090, 1104,
    1105, 1106, 1107, 1108, 1109, 1110, 1111, 1112, 1113, 1114, 1115, 1116, 1117, 1118, 1119, 1120,
    1121, 1122, 1123, 1124, 1125, 1126, 1127, 1128, 1129, 1130, 1131, 1132, 1133, 1134, 1135, 1136,
    1137, 1138, 1139, 1140, 1141, 1142, 1143, 1144, 1145, 1146, 1147, 1148, 1149, 1150, 1151, 1152,
    1153, 1154, 1155, 1156, 1157, 1158, 1159, 1160, 1161, 1162, 1163, 1164, 1165, 1166, 1167, 1168,
    1182, 1183, 1184, 1185, 1186, 1187, 1188, 1189, 1190, 1191, 1192, 1193, 1194, 1208, 1209, 1210,
    1211, 1212, 1213, 1214, 1215, 1220, 1221, 1222, 1223, 1224, 1225, 1226, 1227, 1228, 1229, 1230,
    1231, 1240, 1241, 1242, 1243, 1248, 1249, 1250, 1251, 1256, 1257, 1258, 1259, 1260, 1261, 1262,
    1263, 1268, 1269, 1270, 1271, 1276, 1278,
];

/// Whether a prediction may follow a word with this right connection identifier.
pub fn prediction_usable(right_id: u16) -> (r: bool)
    ensures
        r == !PREDICTION_UNUSABLE_RIGHT_IDS@.contains(right_id),
{
    let ids = PREDICTION_UNUSABLE_RIGHT_IDS;
    let mut i: usize = 0;
    while i < 583
        invariant
            i <= 583,
            ids@ == PREDICTION_UNUSABLE_RIGHT_IDS@,
            ids@.len() == 583,
            forall|j: int| 0 <= j < i ==> ids@[j] != right_id,
        decreases 583 - i,
    {
        if ids[i] == right_id {
            assert(ids@[i as int] == right_id);
            return false;
        }
        i = i + 1;
    }
    true
}

/// The connection state before the first word of a conversion.
#[derive(Clone, Copy, Debug, Eq, PartialEq)]
pub struct ConversionContext {
    pub right_id: u16,
    pub meaning_id: u16,
}

impl Default for ConversionContext {
    /// The beginning of a sentence.
    fn default() -> (c: Self)
        ensures
            c.right_id == 0 && c.meaning_id == 500,
    {
        ConversionContext { right_id: 0, meaning_id: 500 }
    }
}

/// A position in the lattice, counted in input elements or in surface graphemes.
#[derive(Clone, Copy, Debug, Eq, Hash, PartialEq)]
pub enum LatticeIndex {
    Input(usize),
    Surface(usize),
}

/// A span of the lattice, in input elements or in surface graphemes.
#[derive(Clone, Copy, Debug, Eq, Hash, PartialEq)]
pub enum LatticeRange {
    Input { from: usize, to: usize },
    Surface { from: usize, to: usize },
}

impl LatticeRange {
    /// Where the span ends.
    pub fn end(self) -> (i: LatticeIndex)
        ensures
            i == match self {
                LatticeRange::Input { to, .. } => LatticeIndex::Input(to),
                LatticeRange::Surface { to, .. } => LatticeIndex::Surface(to),
            },
    {
        match self {
            LatticeRange::Input { to, .. } => LatticeIndex::Input(to),
            LatticeRange::Surface { to, .. } => LatticeIndex::Surface(to),
        }
    }

    /// How much of the composing text the span covers.
    pub fn count(self) -> (c: ComposingCount)
        requires
            match self {
                LatticeRange::Input { from, to } => from <= to,
                LatticeRange::Surface { from, to } => from <= to,
            },
        ensures
            match self {
                LatticeRange::Input { from, to } => c == ComposingCount::Input((to - from) as usize),
                LatticeRange::Surface { from, to } => c == ComposingCount::Surface(
                    (to - from) as usize,
                ),
            },
    {
        match self {
            LatticeRange::Input { from, to } => ComposingCount::Input(to - from),
            LatticeRange::Surface { from, to } => ComposingCount::Surface(to - from),
        }
    }
}

/// A lattice position with its input position, its surface position, or both.
#[derive(Clone, Copy, Debug, Eq, Hash, PartialEq)]
pub enum DualIndex {
    Input(usize),
    Surface(usize),
    Both { input: usize, surface: usize },
}

impl DualIndex {
    pub fn input(self) -> (r: Option<usize>)
        ensures
            r == match self {
                DualIndex::Input(i) => Some(i),
                DualIndex::Both { input, .. } => Some(input),
                DualIndex::Surface(_) => None,
            },
    {
        match self {
            DualIndex::Input(index) => Some(index),
            DualIndex::Both { input, .. } => Some(input),
            DualIndex::Surface(_) => None,
        }
    }

    pub fn surface(self) -> (r: Option<usize>)
        ensures
            r == match self {
                DualIndex::Surface(s) => Some(s),
                DualIndex::Both { surface, .. } => Some(surface),
                DualIndex::Input(_) => None,
            },
    {
        match self {
            DualIndex::Surface(index) => Some(index),
            DualIndex::Both { surface, .. } => Some(surface),
            DualIndex::Input(_) => None,
        }
    }
}

/// For each surface position reached by some input position up to `k - 1`, the first
/// such input position.
pub open spec fn inverse_upto(m: Map<usize, usize>, k: int) -> Map<usize, usize>
    decreases k,
{
    if k <= 0 {
        Map::empty()
    } else {
        let prev = inverse_upto(m, k - 1);
        let i = (k - 1) as usize;
        if m.contains_key(i) && !prev.contains_key(m[i]) {
            prev.insert(m[i], i)
        } else {
            prev
        }
    }
}

/// Every input position `0..=n` maps to itself.
pub open spec fn identity_map_of(m: Map<usize, usize>, n: int) -> bool {
    forall|i: usize| i <= n ==> #[trigger] m.contains_key(i) && m[i] == i
}

/// The independent positions of a composing text in both directions.
pub struct DualIndexMap {
    input_to_surface: HashMap<usize, usize>,
    surface_to_input: HashMap<usize, usize>,
    identity: bool,
}

pub struct DualMapV {
    pub input_to_surface: Map<usize, usize>,
    pub surface_to_input: Map<usize, usize>,
    pub identity: bool,
}

impl View for DualIndexMap {
    type V = DualMapV;

    closed spec fn view(&self) -> DualMapV {
        DualMapV {
            input_to_surface: self.input_to_surface@,
            surface_to_input: self.surface_to_input@,
            identity: self.identity,
        }
    }
}

/// The lattice position of `index` in both directions.
pub open spec fn dual_spec(v: DualMapV, index: LatticeIndex) -> DualIndex {
    if v.identity {
        let i = match index {
            LatticeIndex::Input(i) => i,
            LatticeIndex::Surface(i) => i,
        };
        DualIndex::Both { input: i, surface: i }
    } else {
        match index {
            LatticeIndex::Input(input) => if v.input_to_surface.contains_key(input) {
                DualIndex::Both { input, surface: v.input_to_surface[input] }
            } else {
                DualIndex::Input(input)
            },
            LatticeIndex::Surface(surface) => if v.surface_to_input.contains_key(surface) {
                DualIndex::Both { input: v.surface_to_input[surface], surface }
            } else {
                DualIndex::Surface(surface)
            },
        }
    }
}

pub open spec fn surfaces_between(from: int, to: int) -> Seq<DualIndex> {
    if from < to {
        Seq::new((to - from) as nat, |j: int| DualIndex::Surface((from + j) as usize))
    } else {
        Seq::empty()
    }
}

pub open spec fn min_int(a: int, b: int) -> int {
    if a <= b {
        a
    } else {
        b
    }
}

/// The positions for inputs `0..k`: before an input that has a surface position come the
/// surface positions not yet listed; the input then appears with its surface position when
/// that lies ahead of the pointer and inside the surface. Returns the positions and the
/// surface pointer.
pub open spec fn indices_loop(m: Map<usize, usize>, surface_count: int, k: int) -> (Seq<DualIndex>, int)
    decreases k,
{
    if k <= 0 {
        (Seq::empty(), 0)
    } else {
        let (acc, ptr) = indices_loop(m, surface_count, k - 1);
        let input = (k - 1) as usize;
        if m.contains_key(input) {
            let s = m[input] as int;
            let step = surfaces_between(min_int(ptr, s), s);
            let here = if ptr <= s && s < surface_count {
                DualIndex::Both { input, surface: s as usize }
            } else {
                DualIndex::Input(input)
            };
            (acc + step.push(here), if s < usize::MAX { s + 1 } else { s })
        } else {
            (acc.push(DualIndex::Input(input)), ptr)
        }
    }
}

/// The lattice positions in order, for `input_count` inputs and `surface_count` surface
/// graphemes.
pub open spec fn indices_spec(v: DualMapV, input_count: int, surface_count: int) -> Seq<DualIndex> {
    if v.identity {
        Seq::new(
            min_int(input_count, surface_count) as nat,
            |i: int| DualIndex::Both { input: i as usize, surface: i as usize },
        )
    } else {
        let (acc, ptr) = indices_loop(v.input_to_surface, surface_count, input_count);
        acc + surfaces_between(min_int(ptr, surface_count), surface_count)
    }
}

fn push_surfaces(out: &mut Vec<DualIndex>, from: usize, to: usize)
    ensures
        final(out)@ == old(out)@ + surfaces_between(from as int, to as int),
{
    let mut v = from;
    while v < to
        invariant
            from <= v <= to || (v == from && from >= to),
            out@ == old(out)@ + surfaces_between(from as int, v as int),
        decreases to - v,
    {
        out.push(DualIndex::Surface(v));
        assert(surfaces_between(from as int, v + 1) == surfaces_between(from as int, v as int).push(
            DualIndex::Surface(v),
        ));
        v = v + 1;
    }
    proof {
        if from >= to {
            assert(surfaces_between(from as int, to as int) == Seq::<DualIndex>::empty());
            assert(out@ =~= old(out)@ + surfaces_between(from as int, to as int));
        }
    }
}

impl DualIndexMap {
    /// The index maps of a composing text.
    pub fn new(composing: &ComposingText, tables: &InputTableRegistry) -> (m: Self)
        ensures
            m@.input_to_surface == surface_map_spec(tables@, composing@),
            m@.identity == (composing@.input.len() == composing@.surface.len() && identity_map_of(
                surface_map_spec(tables@, composing@),
                composing@.input.len() as int,
            )),
            m@.surface_to_input == inverse_upto(
                surface_map_spec(tables@, composing@),
                composing@.input.len() as int + 1,
            ),
    {
        let input_to_surface = composing.input_to_surface_map(tables);
        let n = composing.input().len();
        let ghost mv = input_to_surface@;
        let mut identity = n == composing.surface_graphemes().len();
        let mut i: usize = 0;
        loop
            invariant_except_break
                i <= n,
                n == composing@.input.len(),
                mv == input_to_surface@,
                identity == (n == composing@.surface.len() && forall|j: usize|
                    j < i ==> #[trigger] mv.contains_key(j) && mv[j] == j),
            ensures
                identity == (n == composing@.surface.len() && identity_map_of(mv, n as int)),
            decreases n - i,
        {
            let same = match input_to_surface.get(&i) {
                Some(s) => *s == i,
                None => false,
            };
            assert(same == (mv.contains_key(i) && mv[i] == i));
            let ghost old_identity = identity;
            identity = identity && same;
            proof {
                if identity {
                    assert forall|j: usize| j <= i implies #[trigger] mv.contains_key(j) && mv[j] == j by {
                        if j == i {
                        }
                    }
                } else if n == composing@.surface.len() && (forall|j: usize| j <= i ==> #[trigger] mv.contains_key(j) && mv[j] == j) {
                    assert(mv.contains_key(i) && mv[i] == i);
                    assert forall|j: usize| j < i implies #[trigger] mv.contains_key(j) && mv[j] == j by {
                        assert(j <= i);
                    }
                    assert(false);
                }
            }
            if i == n {
                proof {
                    if identity {
                        assert(n == composing@.surface.len());
                        assert(identity_map_of(mv, n as int));
                    } else if n == composing@.surface.len() && identity_map_of(mv, n as int) {
                        assert forall|j: usize| j <= i implies #[trigger] mv.contains_key(j) && mv[j] == j by {
                            assert(j <= n);
                        }
                    }
                }
                break;
            }
            i = i + 1;
        }
        let mut surface_to_input: HashMap<usize, usize> = HashMap::new();
        let mut k: usize = 0;
        loop
            invariant_except_break
                k <= n,
                mv == input_to_surface@,
                surface_to_input@ == inverse_upto(mv, k as int),
            ensures
                surface_to_input@ == inverse_upto(mv, n as int + 1),
            decreases n - k,
        {
            match input_to_surface.get(&k) {
                Some(s) => {
                    if !surface_to_input.contains_key(s) {
                        surface_to_input.insert(*s, k);
                    }
                },
                None => {},
            }
            if k == n {
                break;
            }
            k = k + 1;
        }
        DualIndexMap { input_to_surface, surface_to_input, identity }
    }

    /// The lattice position of `index` in both directions.
    pub fn dual(&self, index: LatticeIndex) -> (d: DualIndex)
        ensures
            d == dual_spec(self@, index),
    {
        if self.identity {
            let i = match index {
                LatticeIndex::Input(i) => i,
                LatticeIndex::Surface(i) => i,
            };
            return DualIndex::Both { input: i, surface: i };
        }
        match index {
            LatticeIndex::Input(input) => match self.input_to_surface.get(&input) {
                Some(s) => DualIndex::Both { input, surface: *s },
                None => DualIndex::Input(input),
            },
            LatticeIndex::Surface(surface) => match self.surface_to_input.get(&surface) {
                Some(i) => DualIndex::Both { input: *i, surface },
                None => DualIndex::Surface(surface),
            },
        }
    }

    /// The lattice positions in order.
    pub fn indices(&self, input_count: usize, surface_count: usize) -> (out: Vec<DualIndex>)
        ensures
            out@ == indices_spec(self@, input_count as int, surface_count as int),
    {
        let mut indices: Vec<DualIndex> = Vec::new();
        if self.identity {
            let n = if input_count < surface_count {
                input_count
            } else {
                surface_count
            };
            let mut i: usize = 0;
            while i < n
                invariant
                    i <= n,
                    n == min_int(input_count as int, surface_count as int),
                    indices@ == Seq::new(
                        i as nat,
                        |j: int| DualIndex::Both { input: j as usize, surface: j as usize },
                    ),
                decreases n - i,
            {
                indices.push(DualIndex::Both { input: i, surface: i });
                assert(indices@ =~= Seq::new(
                    (i + 1) as nat,
                    |j: int| DualIndex::Both { input: j as usize, surface: j as usize },
                ));
                i = i + 1;
            }
            return indices;
        }
        let ghost m = self@.input_to_surface;
        let mut pointer: usize = 0;
        let mut input: usize = 0;
        while input < input_count
            invariant
                input <= input_count,
                m == self@.input_to_surface,
                !self@.identity,
                (indices@, pointer as int) == indices_loop(m, surface_count as int, input as int),
            decreases input_count - input,
        {
            match self.input_to_surface.get(&input) {
                Some(s) => {
                    let surface = *s;
                    let start = if pointer < surface {
                        pointer
                    } else {
                        surface
                    };
                    let ghost before = indices@;
                    push_surfaces(&mut indices, start, surface);
                    let ghost mid = indices@;
                    if pointer <= surface && surface < surface_count {
                        indices.push(DualIndex::Both { input, surface });
                    } else {
                        indices.push(DualIndex::Input(input));
                    }
                    pointer = if surface < usize::MAX {
                        surface + 1
                    } else {
                        surface
                    };
                    assert(indices@ =~= before + surfaces_between(start as int, surface as int).push(
                        indices@.last(),
                    ));
                },
                None => {
                    indices.push(DualIndex::Input(input));
                },
            }
            input = input + 1;
        }
        let start = if pointer < surface_count {
            pointer
        } else {
            surface_count
        };
        push_surfaces(&mut indices, start, surface_count);
        indices
    }
}

/// The full-width form of a character: space becomes the ideographic space and printable
/// ASCII moves to the full-width block.
pub open spec fn full_width_char(c: char) -> char {
    if c == ' ' {
        '\u{3000}'
    } else if '!' <= c && c <= '~' {
        ((c as u32) + 0xfee0) as char
    } else {
        c
    }
}

/// Converts printable ASCII to its full-width form.
pub fn to_full_width(value: &str) -> (out: String)
    ensures
        out@ == value@.map_values(|c: char| full_width_char(c)),
{
    let chars = chars_of(value);
    let mut out = String::new();
    let mut i: usize = 0;
    while i < chars.len()
        invariant
            i <= chars@.len(),
            chars@ == value@,
            out@ == chars@.take(i as int).map_values(|c: char| full_width_char(c)),
        decreases chars@.len() - i,
    {
        let c = chars[i];
        let mapped = if c == ' ' {
            '\u{3000}'
        } else if '!' <= c && c <= '~' {
            let v = (c as u32) + 0xfee0;
            assert(0xff01 <= v <= 0xff5e);
            crate::text::scalar_to_char(v)
        } else {
            c
        };
        push_char(&mut out, mapped);
        assert(chars@.take(i + 1) == chars@.take(i as int).push(c));
        i = i + 1;
    }
    assert(chars@.take(i as int) == chars@);
    out
}

/// Katakana and punctuation with a one-character half-width form, and those forms.
pub open spec fn half_plain_from() -> Seq<char> {
    "。「」、・ヲァィゥェォャュョッーアイウエオカキクケコサシスセソタチツテトナニヌネノハヒフヘホマミムメモヤユヨラリルレロワン"@
}

pub open spec fn half_plain_to() -> Seq<char> {
    "｡｢｣､･ｦｧｨｩｪｫｬｭｮｯｰｱｲｳｴｵｶｷｸｹｺｻｼｽｾｿﾀﾁﾂﾃﾄﾅﾆﾇﾈﾉﾊﾋﾌﾍﾎﾏﾐﾑﾒﾓﾔﾕﾖﾗﾘﾙﾚﾛﾜﾝ"@
}

/// Voiced katakana, written half-width as a base form and the voiced mark.
pub open spec fn half_voiced_from() -> Seq<char> {
    "ヴガギグゲゴザジズゼゾダヂヅデドバビブベボ"@
}

pub open spec fn half_voiced_base() -> Seq<char> {
    "ｳｶｷｸｹｺｻｼｽｾｿﾀﾁﾂﾃﾄﾊﾋﾌﾍﾎ"@
}

/// Semi-voiced katakana, written half-width as a base form and the semi-voiced mark.
pub open spec fn half_semi_from() -> Seq<char> {
    "パピプペポ"@
}

pub open spec fn half_semi_base() -> Seq<char> {
    "ﾊﾋﾌﾍﾎ"@
}

/// The first position of `c` in `s`.
pub open spec fn index_in(s: Seq<char>, c: char) -> Option<int> {
    if exists|i: int| 0 <= i < s.len() && s[i] == c {
        Some(choose|i: int| 0 <= i < s.len() && s[i] == c && forall|j: int| 0 <= j < i ==> s[j] != c)
    } else {
        None
    }
}

/// The half-width form of a character.
pub open spec fn half_width_of(c: char) -> Seq<char> {
    match index_in(half_plain_from(), c) {
        Some(i) => seq![half_plain_to()[i]],
        None => match index_in(half_voiced_from(), c) {
            Some(i) => seq![half_voiced_base()[i], '\u{FF9E}'],
            None => match index_in(half_semi_from(), c) {
                Some(i) => seq![half_semi_base()[i], '\u{FF9F}'],
                None => seq![c],
            },
        },
    }
}

/// The position of `c` in `s`, found by a scan.
fn find_in(s: &Vec<char>, c: char) -> (r: Option<usize>)
    ensures
        match r {
            Some(i) => index_in(s@, c) == Some(i as int) && i < s@.len(),
            None => index_in(s@, c) is None,
        },
{
    let mut i: usize = 0;
    while i < s.len()
        invariant
            i <= s@.len(),
            forall|j: int| 0 <= j < i ==> s@[j] != c,
        decreases s@.len() - i,
    {
        if s[i] == c {
            assert(exists|k: int| 0 <= k < s@.len() && s@[k] == c);
            let ghost k = choose|k: int| 0 <= k < s@.len() && s@[k] == c && forall|j: int| 0 <= j < k ==> s@[j] != c;
            assert(0 <= i < s@.len() && s@[i as int] == c && forall|j: int| 0 <= j < i ==> s@[j] != c);
            assert(k == i) by {
                if k < i {
                    assert(s@[k] != c);
                } else if k > i {
                    assert(s@[i as int] != c);
                }
            }
            return Some(i);
        }
        i = i + 1;
    }
    None
}

/// Converts katakana and Japanese punctuation to their half-width forms.
pub fn to_half_width(value: &str) -> (out: String)
    ensures
        out@ == value@.map_values(|c: char| half_width_of(c)).flatten(),
{
    proof {
        reveal_strlit("。「」、・ヲァィゥェォャュョッーアイウエオカキクケコサシスセソタチツテトナニヌネノハヒフヘホマミムメモヤユヨラリルレロワン");
        reveal_strlit("｡｢｣､･ｦｧｨｩｪｫｬｭｮｯｰｱｲｳｴｵｶｷｸｹｺｻｼｽｾｿﾀﾁﾂﾃﾄﾅﾆﾇﾈﾉﾊﾋﾌﾍﾎﾏﾐﾑﾒﾓﾔﾕﾖﾗﾘﾙﾚﾛﾜﾝ");
        reveal_strlit("ヴガギグゲゴザジズゼゾダヂヅデドバビブベボ");
        reveal_strlit("ｳｶｷｸｹｺｻｼｽｾｿﾀﾁﾂﾃﾄﾊﾋﾌﾍﾎ");
        reveal_strlit("パピプペポ");
        reveal_strlit("ﾊﾋﾌﾍﾎ");
    }
    let plain_from = chars_of("。「」、・ヲァィゥェォャュョッーアイウエオカキクケコサシスセソタチツテトナニヌネノハヒフヘホマミムメモヤユヨラリルレロワン");
    let plain_to = chars_of("｡｢｣､･ｦｧｨｩｪｫｬｭｮｯｰｱｲｳｴｵｶｷｸｹｺｻｼｽｾｿﾀﾁﾂﾃﾄﾅﾆﾇﾈﾉﾊﾋﾌﾍﾎﾏﾐﾑﾒﾓﾔﾕﾖﾗﾘﾙﾚﾛﾜﾝ");
    let voiced_from = chars_of("ヴガギグゲゴザジズゼゾダヂヅデドバビブベボ");
    let voiced_base = chars_of("ｳｶｷｸｹｺｻｼｽｾｿﾀﾁﾂﾃﾄﾊﾋﾌﾍﾎ");
    let semi_from = chars_of("パピプペポ");
    let semi_base = chars_of("ﾊﾋﾌﾍﾎ");
    let chars = chars_of(value);
    let ghost parts = value@.map_values(|c: char| half_width_of(c));
    let mut out = String::new();
    let mut i: usize = 0;
    while i < chars.len()
        invariant
            i <= chars@.len(),
            chars@ == value@,
            parts == value@.map_values(|c: char| half_width_of(c)),
            plain_from@ == half_plain_from(),
            plain_to@ == half_plain_to(),
            voiced_from@ == half_voiced_from(),
            voiced_base@ == half_voiced_base(),
            semi_from@ == half_semi_from(),
            semi_base@ == half_semi_base(),
            plain_from@.len() == plain_to@.len(),
            voiced_from@.len() == voiced_base@.len(),
            semi_from@.len() == semi_base@.len(),
            out@ == parts.take(i as int).flatten(),
        decreases chars@.len() - i,
    {
        let c = chars[i];
        let ghost before = out@;
        match find_in(&plain_from, c) {
            Some(k) => {
                push_char(&mut out, plain_to[k]);
            },
            None => match find_in(&voiced_from, c) {
                Some(k) => {
                    push_char(&mut out, voiced_base[k]);
                    push_char(&mut out, '\u{FF9E}');
                },
                None => match find_in(&semi_from, c) {
                    Some(k) => {
                        push_char(&mut out, semi_base[k]);
                        push_char(&mut out, '\u{FF9F}');
                    },
                    None => {
                        push_char(&mut out, c);
                    },
                },
            },
        }
        proof {
            assert(parts[i as int] == half_width_of(c));
            assert(out@ =~= before + half_width_of(c));
            assert(parts.take(i + 1) == parts.take(i as int).push(parts[i as int]));
            parts.take(i as int).lemma_flatten_push(parts[i as int]);
        }
        i = i + 1;
    }
    assert(parts.take(i as int) == parts);
    out
}


/// The kind of word a connection class is: 0 for particles and the like, 1 for content
/// words, 2 for the rest, 3 for sentence boundaries.
pub open spec fn word_type_spec(class_id: int) -> u8 {
    if class_id == 0 || class_id == 1316 {
        3
    } else if class_id == 1315 || class_id == 6 || (557 <= class_id && class_id <= 560) {
        0
    } else if (561 <= class_id < 868) || (1283 <= class_id < 1297) || (1306 <= class_id < 1310)
        || (11 <= class_id < 53) || (555 <= class_id < 557) || (1281 <= class_id < 1283)
        || class_id == 1314 || (1 <= class_id <= 5) || class_id == 9 {
        1
    } else {
        2
    }
}

/// The kind of word a connection class is.
pub fn word_type(class_id: usize) -> (r: u8)
    ensures
        r == word_type_spec(class_id as int),
{
    if class_id == 0 || class_id == 1316 {
        return 3;
    }
    if class_id == 1315 || class_id == 6 || (557 <= class_id && class_id <= 560) {
        return 0;
    }
    if (561 <= class_id && class_id < 868) || (1283 <= class_id && class_id < 1297) || (1306
        <= class_id && class_id < 1310) || (11 <= class_id && class_id < 53) || (555 <= class_id
        && class_id < 557) || (1281 <= class_id && class_id < 1283) || class_id == 1314 || (1
        <= class_id && class_id <= 5) || class_id == 9 {
        return 1;
    }
    2
}

/// A clause boundary lies between two words when neither is a sentence boundary, the
/// latter is a particle or a content word and the former is not a particle.
pub open spec fn is_clause_spec(former: int, latter: int) -> bool {
    let latter_type = word_type_spec(latter);
    let former_type = word_type_spec(former);
    latter_type != 3 && former_type != 3 && (latter_type == 0 || latter_type == 1) && former_type
        != 0
}

/// Whether a clause boundary lies between words of the two classes.
pub fn is_clause(former: usize, latter: usize) -> (r: bool)
    ensures
        r == is_clause_spec(former as int, latter as int),
{
    let latter_type = word_type(latter);
    if latter_type == 3 {
        return false;
    }
    let former_type = word_type(former);
    if former_type == 3 {
        return false;
    }
    (latter_type == 0 || latter_type == 1) && former_type != 0
}

/// Whether a word with these connection identifiers carries a meaning of its own.
pub open spec fn includes_meaning_spec(left: int, right: int) -> bool {
    (895 <= left <= 1280) || (895 <= right <= 1280) || (1297 <= left <= 1305) || (1297 <= right
        <= 1305) || word_type_spec(left) == 1 || word_type_spec(right) == 1
}

/// Whether a word with these connection identifiers carries a meaning of its own.
pub fn includes_meaning(left_id: u16, right_id: u16) -> (r: bool)
    ensures
        r == includes_meaning_spec(left_id as int, right_id as int),
{
    let left = left_id as usize;
    let right = right_id as usize;
    (895 <= left && left <= 1280) || (895 <= right && right <= 1280) || (1297 <= left && left
        <= 1305) || (1297 <= right && right <= 1305) || word_type(left) == 1 || word_type(right)
        == 1
}

/// Two counts of the same unit add up; counts of different units are kept side by side.
pub open spec fn combined_counts(left: ComposingCount, right: ComposingCount) -> ComposingCount {
    match (left, right) {
        (ComposingCount::Input(a), ComposingCount::Input(b)) => ComposingCount::Input(
            (a + b) as usize,
        ),
        (ComposingCount::Surface(a), ComposingCount::Surface(b)) => ComposingCount::Surface(
            (a + b) as usize,
        ),
        (l, r) => ComposingCount::Composite(Box::new(l), Box::new(r)),
    }
}

/// Whether two counts of the same unit add up within `usize`.
pub open spec fn counts_fit(left: ComposingCount, right: ComposingCount) -> bool {
    match (left, right) {
        (ComposingCount::Input(a), ComposingCount::Input(b)) => a + b <= usize::MAX,
        (ComposingCount::Surface(a), ComposingCount::Surface(b)) => a + b <= usize::MAX,
        _ => true,
    }
}

/// The count of two consecutive spans.
pub fn combine_counts(left: ComposingCount, right: ComposingCount) -> (r: ComposingCount)
    requires
        counts_fit(left, right),
    ensures
        r == combined_counts(left, right),
{
    match (left, right) {
        (ComposingCount::Input(a), ComposingCount::Input(b)) => ComposingCount::Input(a + b),
        (ComposingCount::Surface(a), ComposingCount::Surface(b)) => ComposingCount::Surface(a + b),
        (l, r) => ComposingCount::Composite(Box::new(l), Box::new(r)),
    }
}


/// Every printable ASCII character other than the space becomes the full-width character
/// 0xFEE0 above it, the space becomes the ideographic space U+3000, and every other
/// character is kept.
pub proof fn lemma_full_width_offsets(c: char)
    ensures
        0x21 <= (c as u32) <= 0x7E ==> seq![c].map_values(|x: char| full_width_char(x))[0] as u32
            == (c as u32) + 0xFEE0,
        c == ' ' ==> seq![c].map_values(|x: char| full_width_char(x))[0] == '\u{3000}',
        (c as u32) < 0x20 || (c as u32) > 0x7E ==> seq![c].map_values(
            |x: char| full_width_char(x),
        )[0] == c,
{
}

} // verus!
