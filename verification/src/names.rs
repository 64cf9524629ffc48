//! Names of colormaps, window types and master effects, as they appear in
//! the settings file and in song files.
use vstd::prelude::*;

use crate::text::{chars_of, str_eq};

verus! {

/// The colormaps the spectrogram can be drawn with.
#[derive(Debug, Clone, Copy, PartialEq, Eq, Structural)]
pub enum ColormapId {
    Classic,
    Viridis,
    Magma,
    Inferno,
    Greyscale,
    InvertedGrey,
    Geek,
    Custom,
}

/// The colormap at position `idx` of the colormap list (`Classic` past its
/// end).
pub open spec fn colormap_at(idx: int) -> ColormapId {
    if idx == 0 {
        ColormapId::Classic
    } else if idx == 1 {
        ColormapId::Viridis
    } else if idx == 2 {
        ColormapId::Magma
    } else if idx == 3 {
        ColormapId::Inferno
    } else if idx == 4 {
        ColormapId::Greyscale
    } else if idx == 5 {
        ColormapId::InvertedGrey
    } else if idx == 6 {
        ColormapId::Geek
    } else if idx == 7 {
        ColormapId::Custom
    } else {
        ColormapId::Classic
    }
}

/// The display name of a colormap.
pub open spec fn colormap_name(c: ColormapId) -> Seq<char> {
    match c {
        ColormapId::Classic => "Classic"@,
        ColormapId::Viridis => "Viridis"@,
        ColormapId::Magma => "Magma"@,
        ColormapId::Inferno => "Inferno"@,
        ColormapId::Greyscale => "Greyscale"@,
        ColormapId::InvertedGrey => "Inverted Grey"@,
        ColormapId::Geek => "Geek"@,
        ColormapId::Custom => "Custom"@,
    }
}

/// Position in the colormap list of a name from the settings file; unknown
/// names (and `Custom`) give 0.
pub open spec fn colormap_index_of(name: Seq<char>) -> usize {
    if name == "Classic"@ {
        0
    } else if name == "Viridis"@ {
        1
    } else if name == "Magma"@ {
        2
    } else if name == "Inferno"@ {
        3
    } else if name == "Greyscale"@ {
        4
    } else if name == "Inverted Grey"@ {
        5
    } else if name == "Geek"@ {
        6
    } else {
        0
    }
}

/// Position in the window-type list of a name from the settings file;
/// unknown names give 0.
pub open spec fn window_type_index_of(name: Seq<char>) -> usize {
    if name == "Hann"@ {
        0
    } else if name == "Hamming"@ {
        1
    } else if name == "Blackman"@ {
        2
    } else if name == "Kaiser"@ {
        3
    } else {
        0
    }
}

impl ColormapId {
    /// The display name.
    pub fn name(&self) -> (s: &'static str)
        ensures
            s@ == colormap_name(*self),
    {
        match self {
            ColormapId::Classic => "Classic",
            ColormapId::Viridis => "Viridis",
            ColormapId::Magma => "Magma",
            ColormapId::Inferno => "Inferno",
            ColormapId::Greyscale => "Greyscale",
            ColormapId::InvertedGrey => "Inverted Grey",
            ColormapId::Geek => "Geek",
            ColormapId::Custom => "Custom",
        }
    }

    /// The colormap at position `idx` of the list, `Classic` past its end.
    pub fn from_index(idx: usize) -> (c: Self)
        ensures
            c == colormap_at(idx as int),
    {
        match idx {
            0 => ColormapId::Classic,
            1 => ColormapId::Viridis,
            2 => ColormapId::Magma,
            3 => ColormapId::Inferno,
            4 => ColormapId::Greyscale,
            5 => ColormapId::InvertedGrey,
            6 => ColormapId::Geek,
            7 => ColormapId::Custom,
            _ => ColormapId::Classic,
        }
    }
}

/// The colormap index of a colormap name from the settings file.
pub fn colormap_index(name: &str) -> (i: usize)
    ensures
        i == colormap_index_of(name@),
{
    if str_eq(name, "Classic") {
        0
    } else if str_eq(name, "Viridis") {
        1
    } else if str_eq(name, "Magma") {
        2
    } else if str_eq(name, "Inferno") {
        3
    } else if str_eq(name, "Greyscale") {
        4
    } else if str_eq(name, "Inverted Grey") {
        5
    } else if str_eq(name, "Geek") {
        6
    } else {
        0
    }
}

/// The window-type index of a window-type name from the settings file.
pub fn window_type_index(name: &str) -> (i: usize)
    ensures
        i == window_type_index_of(name@),
{
    if str_eq(name, "Hann") {
        0
    } else if str_eq(name, "Hamming") {
        1
    } else if str_eq(name, "Blackman") {
        2
    } else if str_eq(name, "Kaiser") {
        3
    } else {
        0
    }
}

/// Saving a colormap by name and loading it back by index gives the same
/// colormap, for every colormap but `Custom` (which is not saved by name).
pub proof fn lemma_colormap_name_roundtrip(idx: int)
    requires
        0 <= idx < 7,
    ensures
        colormap_at(colormap_index_of(colormap_name(colormap_at(idx))) as int) == colormap_at(idx),
        colormap_index_of(colormap_name(colormap_at(idx))) == idx,
{
    reveal_strlit("Classic");
    reveal_strlit("Viridis");
    reveal_strlit("Magma");
    reveal_strlit("Inferno");
    reveal_strlit("Greyscale");
    reveal_strlit("Inverted Grey");
    reveal_strlit("Geek");
    let n = colormap_name(colormap_at(idx));
    assert(n.len() > 0);
    if idx != 0 {
        assert(n[0] != 'C' || n.len() != 7);
        assert(n != "Classic"@);
    }
    if idx > 1 {
        assert(n[0] != 'V');
        assert(n != "Viridis"@);
    }
    if idx > 2 {
        assert(n[0] != 'M');
        assert(n != "Magma"@);
    }
    if idx > 3 {
        assert(n[0] != 'I' || n.len() != 7);
        assert(n != "Inferno"@);
    }
    if idx > 4 {
        assert(n[0] != 'G' || n.len() != 9);
        assert(n != "Greyscale"@);
    }
    if idx > 5 {
        assert(n[0] != 'I');
        assert(n != "Inverted Grey"@);
    }
}

/// ASCII lower-casing of one character.
pub open spec fn ascii_lower(c: char) -> char {
    if 'A' <= c && c <= 'Z' {
        ((c as u32) + 32) as char
    } else {
        c
    }
}

/// `name` equals `target` ignoring ASCII case.
pub open spec fn eq_ignore_ascii_case(name: Seq<char>, target: Seq<char>) -> bool {
    name.len() == target.len() && forall|i: int|
        0 <= i < name.len() ==> ascii_lower(#[trigger] name[i]) == target[i]
}

/// The names and short names of the master-bus-only effects.
pub open spec fn master_effect_names() -> Seq<Seq<char>> {
    seq![
        "rv"@,
        "reverb"@,
        "rv2"@,
        "reverb2"@,
        "dl"@,
        "delay"@,
        "cl"@,
        "clear"@,
    ]
}

/// `name` is a master-only effect name, in any letter case.
pub open spec fn is_master_effect_name(name: Seq<char>) -> bool {
    exists|k: int|
        0 <= k < master_effect_names().len() && eq_ignore_ascii_case(
            name,
            #[trigger] master_effect_names()[k],
        )
}

fn lower_char(c: char) -> (l: char)
    ensures
        l == ascii_lower(c),
{
    if 'A' <= c && c <= 'Z' {
        ((c as u8) + 32) as char
    } else {
        c
    }
}

pub(crate) fn matches_lower(v: &Vec<char>, target: &str) -> (b: bool)
    ensures
        b == eq_ignore_ascii_case(v@, target@),
{
    let t = chars_of(target);
    if v.len() != t.len() {
        return false;
    }
    let mut i: usize = 0;
    while i < v.len()
        invariant
            i <= v.len() == t.len(),
            t@ == target@,
            forall|j: int| 0 <= j < i ==> ascii_lower(#[trigger] v@[j]) == t@[j],
        decreases v.len() - i,
    {
        if lower_char(v[i]) != t[i] {
            return false;
        }
        i = i + 1;
    }
    true
}

/// Whether an effect name in a song file names a master-bus-only effect
/// (reverb, second reverb, delay, clear), in any letter case.
///
/// Letter case is folded for ASCII letters only: lower-casing turns no
/// other character into one of the letters these names are made of.
pub fn is_master_effect(name: &str) -> (b: bool)
    ensures
        b == is_master_effect_name(name@),
{
    let v = chars_of(name);
    let names = ["rv", "reverb", "rv2", "reverb2", "dl", "delay", "cl", "clear"];
    let ghost targets = master_effect_names();
    assert(names@.map_values(|s: &str| s@) =~= targets);
    let mut k: usize = 0;
    while k < 8
        invariant
            k <= 8,
            v@ == name@,
            names@.map_values(|s: &str| s@) == targets,
            targets == master_effect_names(),
            forall|j: int| 0 <= j < k ==> !eq_ignore_ascii_case(name@, #[trigger] targets[j]),
        decreases 8 - k,
    {
        assert(names@[k as int]@ == targets[k as int]);
        if matches_lower(&v, names[k]) {
            return true;
        }
        k = k + 1;
    }
    false
}

/// Names and short names of the channel effects, in registry order.
pub open spec fn channel_effect_names() -> Seq<(Seq<char>, Seq<char>)> {
    seq![
        ("amplitude"@, "a"@),
        ("pan"@, "p"@),
        ("vibrato"@, "v"@),
        ("tremolo"@, "t"@),
        ("bitcrush"@, "b"@),
        ("distortion"@, "d"@),
        ("chorus"@, "ch"@),
    ]
}

/// Names and short names of the master bus effects, in registry order.
pub open spec fn master_effect_registry_names() -> Seq<(Seq<char>, Seq<char>)> {
    seq![("reverb"@, "rv"@), ("reverb2"@, "rv2"@), ("delay"@, "dl"@)]
}

/// `query` names the effect, by its name or its short name, in any letter
/// case.
pub open spec fn names_effect(entry: (Seq<char>, Seq<char>), query: Seq<char>) -> bool {
    eq_ignore_ascii_case(query, entry.0) || eq_ignore_ascii_case(query, entry.1)
}

/// `r` is the position of the first entry of `names` that `query` names,
/// or `None` when it names none.
pub open spec fn is_first_named(
    names: Seq<(Seq<char>, Seq<char>)>,
    query: Seq<char>,
    r: Option<usize>,
) -> bool {
    match r {
        Some(i) => i < names.len() && names_effect(names[i as int], query) && forall|j: int|
            0 <= j < i ==> !names_effect(#[trigger] names[j], query),
        None => forall|j: int| 0 <= j < names.len() ==> !names_effect(#[trigger] names[j], query),
    }
}

/// Views of name pairs.
pub open spec fn name_pair_views(v: Seq<(&str, &str)>) -> Seq<(Seq<char>, Seq<char>)> {
    v.map_values(|p: (&str, &str)| (p.0@, p.1@))
}

fn first_named(v: &Vec<char>, names: &[(&str, &str)]) -> (r: Option<usize>)
    ensures
        is_first_named(name_pair_views(names@), v@, r),
{
    let ghost ns = name_pair_views(names@);
    let mut k: usize = 0;
    while k < names.len()
        invariant
            k <= names.len(),
            ns == name_pair_views(names@),
            ns.len() == names@.len(),
            forall|j: int| 0 <= j < k ==> !names_effect(#[trigger] ns[j], v@),
        decreases names.len() - k,
    {
        let (name, short) = names[k];
        assert(ns[k as int] == (name@, short@));
        if matches_lower(v, name) || matches_lower(v, short) {
            return Some(k);
        }
        k = k + 1;
    }
    None
}

/// Position in the channel effect registry of the effect called `name`
/// (its name or short name, in any letter case).
///
/// Letter case is folded for ASCII letters only; `str::to_lowercase` gives
/// the same answers, since no other character lower-cases to text made only
/// of the ASCII letters and digits these names are made of.
pub fn find_channel_effect_index(name: &str) -> (r: Option<usize>)
    ensures
        is_first_named(channel_effect_names(), name@, r),
{
    let v = chars_of(name);
    let names = [
        ("amplitude", "a"),
        ("pan", "p"),
        ("vibrato", "v"),
        ("tremolo", "t"),
        ("bitcrush", "b"),
        ("distortion", "d"),
        ("chorus", "ch"),
    ];
    assert(name_pair_views(names@) =~= channel_effect_names());
    first_named(&v, &names)
}

/// Position in the master effect registry of the effect called `name`
/// (its name or short name, in any letter case), folding case as
/// `find_channel_effect_index` does.
pub fn find_master_effect_index(name: &str) -> (r: Option<usize>)
    ensures
        is_first_named(master_effect_registry_names(), name@, r),
{
    let v = chars_of(name);
    let names = [("reverb", "rv"), ("reverb2", "rv2"), ("delay", "dl")];
    assert(name_pair_views(names@) =~= master_effect_registry_names());
    first_named(&v, &names)
}

} // verus!
