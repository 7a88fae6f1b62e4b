//! The `config` block of a settings file: which lines assign which setting,
//! and the integer and pair syntax of setting values.
use vstd::prelude::*;

use crate::text::{
    copy_window, find_char, find_char_from, index_from, index_of, lemma_index_from_bounds,
    split_once, starts_with, trim, trim_bounds, window_equals, window_starts_with,
};

verus! {

/// The settings that a `config` block can assign.
#[derive(Clone, Copy, Debug, PartialEq, Eq, Structural)]
pub enum ConfigKey {
    Dt,
    N,
    Theta,
    Epsilon,
    AccretionSpawnRate,
    InnerRadius,
    OuterRadius,
    OuterRingSpawnZoneInnerRadius,
    OuterRingSpawnZoneOuterRadius,
    CentralMass,
    ParticleMassRange,
    InflowStrength,
    RestoreStrength,
    GalaxySeparationFactor,
    ProbMerge,
    ProbRepeated,
    ProbFlyby,
    MergeSpeedFactor,
    RepeatedSpeedFactor,
    FlybySpeedFactor,
    MergeAngle,
    RepeatedAngle,
    FlybyAngle,
}

/// The setting that a (trimmed) key names, if any.
pub open spec fn key_named(name: Seq<char>) -> Option<ConfigKey> {
    if name == "dt"@ {
        Some(ConfigKey::Dt)
    } else if name == "n"@ {
        Some(ConfigKey::N)
    } else if name == "theta"@ {
        Some(ConfigKey::Theta)
    } else if name == "epsilon"@ {
        Some(ConfigKey::Epsilon)
    } else if name == "accretion_spawn_rate"@ {
        Some(ConfigKey::AccretionSpawnRate)
    } else if name == "inner_radius"@ {
        Some(ConfigKey::InnerRadius)
    } else if name == "outer_radius"@ {
        Some(ConfigKey::OuterRadius)
    } else if name == "outer_ring_spawn_zone_inner_radius"@ {
        Some(ConfigKey::OuterRingSpawnZoneInnerRadius)
    } else if name == "outer_ring_spawn_zone_outer_radius"@ {
        Some(ConfigKey::OuterRingSpawnZoneOuterRadius)
    } else if name == "central_mass"@ {
        Some(ConfigKey::CentralMass)
    } else if name == "particle_mass_range"@ {
        Some(ConfigKey::ParticleMassRange)
    } else if name == "inflow_strength"@ {
        Some(ConfigKey::InflowStrength)
    } else if name == "restore_strength"@ {
        Some(ConfigKey::RestoreStrength)
    } else if name == "galaxy_separation_factor"@ {
        Some(ConfigKey::GalaxySeparationFactor)
    } else if name == "prob_merge"@ {
        Some(ConfigKey::ProbMerge)
    } else if name == "prob_repeated"@ {
        Some(ConfigKey::ProbRepeated)
    } else if name == "prob_flyby"@ {
        Some(ConfigKey::ProbFlyby)
    } else if name == "merge_speed_factor"@ {
        Some(ConfigKey::MergeSpeedFactor)
    } else if name == "repeated_speed_factor"@ {
        Some(ConfigKey::RepeatedSpeedFactor)
    } else if name == "flyby_speed_factor"@ {
        Some(ConfigKey::FlybySpeedFactor)
    } else if name == "merge_angle"@ {
        Some(ConfigKey::MergeAngle)
    } else if name == "repeated_angle"@ {
        Some(ConfigKey::RepeatedAngle)
    } else if name == "flyby_angle"@ {
        Some(ConfigKey::FlybyAngle)
    } else {
        None
    }
}

/// One assignment read from the `config` block: a setting and the trimmed
/// text of its value.
pub struct ConfigEntry {
    pub key: ConfigKey,
    pub value: Vec<char>,
}

impl View for ConfigEntry {
    type V = (ConfigKey, Seq<char>);

    open spec fn view(&self) -> (ConfigKey, Seq<char>) {
        (self.key, self.value@)
    }
}

pub open spec fn entries_view(v: Seq<ConfigEntry>) -> Seq<(ConfigKey, Seq<char>)> {
    v.map_values(|e: ConfigEntry| e@)
}

/// The assignment that a trimmed line inside the block makes, if any: the
/// text is split at its first `=` (or, lacking one, its first `:`), and the
/// trimmed left part must name a setting.
pub open spec fn assignment(t: Seq<char>) -> Option<(ConfigKey, Seq<char>)> {
    let pair = match split_once(t, '=') {
        Some(p) => Some(p),
        None => split_once(t, ':'),
    };
    match pair {
        Some((k, v)) => match key_named(trim(k)) {
            Some(key) => Some((key, trim(v))),
            None => None,
        },
        None => None,
    }
}

/// What one trimmed line does, given whether the block is open: whether the
/// block is open afterwards, whether reading stops, and the entries it adds.
pub open spec fn line_effect(t: Seq<char>, in_block: bool) -> (bool, bool, Seq<(ConfigKey, Seq<char>)>) {
    if starts_with(t, "```config"@) {
        (true, false, seq![])
    } else if !in_block {
        (false, false, seq![])
    } else if starts_with(t, "```"@) {
        (true, true, seq![])
    } else if t.len() == 0 || t[0] == '#' {
        (true, false, seq![])
    } else {
        match assignment(t) {
            Some(e) => (true, false, seq![e]),
            None => (true, false, seq![]),
        }
    }
}

/// End of the line that starts at `pos`: the next `\n`, or the end of the text.
pub open spec fn line_end(s: Seq<char>, pos: int) -> int {
    let e = index_from(s, '\n', pos);
    if e < 0 {
        s.len() as int
    } else {
        e
    }
}

/// The entries read from the lines of `s` that start at or after `pos`.
/// Lines are split at `\n` alone: each line is trimmed, which also removes
/// a `\r` before the `\n`, and a trailing empty line has no effect.
pub open spec fn entries_from(s: Seq<char>, pos: int, in_block: bool) -> Seq<(ConfigKey, Seq<char>)>
    decreases s.len() - pos,
{
    if pos < 0 || pos > s.len() {
        seq![]
    } else {
        let e = line_end(s, pos);
        let (open, stop, out) = line_effect(trim(s.subrange(pos, e)), in_block);
        if stop || e >= s.len() {
            out
        } else {
            proof {
                lemma_index_from_bounds(s, '\n', pos);
            }
            out + entries_from(s, e + 1, open)
        }
    }
}

/// The assignments of the first `config` block of `s`, in order.
pub open spec fn config_entries_of(s: Seq<char>) -> Seq<(ConfigKey, Seq<char>)> {
    entries_from(s, 0, false)
}

/// The setting that the window `text[lo..hi]` names.
pub fn lookup_key(text: &Vec<char>, lo: usize, hi: usize) -> (r: Option<ConfigKey>)
    requires
        lo <= hi <= text.len(),
    ensures
        r == key_named(text@.subrange(lo as int, hi as int)),
{
    if window_equals(text, lo, hi, "dt") {
        Some(ConfigKey::Dt)
    } else if window_equals(text, lo, hi, "n") {
        Some(ConfigKey::N)
    } else if window_equals(text, lo, hi, "theta") {
        Some(ConfigKey::Theta)
    } else if window_equals(text, lo, hi, "epsilon") {
        Some(ConfigKey::Epsilon)
    } else if window_equals(text, lo, hi, "accretion_spawn_rate") {
        Some(ConfigKey::AccretionSpawnRate)
    } else if window_equals(text, lo, hi, "inner_radius") {
        Some(ConfigKey::InnerRadius)
    } else if window_equals(text, lo, hi, "outer_radius") {
        Some(ConfigKey::OuterRadius)
    } else if window_equals(text, lo, hi, "outer_ring_spawn_zone_inner_radius") {
        Some(ConfigKey::OuterRingSpawnZoneInnerRadius)
    } else if window_equals(text, lo, hi, "outer_ring_spawn_zone_outer_radius") {
        Some(ConfigKey::OuterRingSpawnZoneOuterRadius)
    } else if window_equals(text, lo, hi, "central_mass") {
        Some(ConfigKey::CentralMass)
    } else if window_equals(text, lo, hi, "particle_mass_range") {
        Some(ConfigKey::ParticleMassRange)
    } else if window_equals(text, lo, hi, "inflow_strength") {
        Some(ConfigKey::InflowStrength)
    } else if window_equals(text, lo, hi, "restore_strength") {
        Some(ConfigKey::RestoreStrength)
    } else if window_equals(text, lo, hi, "galaxy_separation_factor") {
        Some(ConfigKey::GalaxySeparationFactor)
    } else if window_equals(text, lo, hi, "prob_merge") {
        Some(ConfigKey::ProbMerge)
    } else if window_equals(text, lo, hi, "prob_repeated") {
        Some(ConfigKey::ProbRepeated)
    } else if window_equals(text, lo, hi, "prob_flyby") {
        Some(ConfigKey::ProbFlyby)
    } else if window_equals(text, lo, hi, "merge_speed_factor") {
        Some(ConfigKey::MergeSpeedFactor)
    } else if window_equals(text, lo, hi, "repeated_speed_factor") {
        Some(ConfigKey::RepeatedSpeedFactor)
    } else if window_equals(text, lo, hi, "flyby_speed_factor") {
        Some(ConfigKey::FlybySpeedFactor)
    } else if window_equals(text, lo, hi, "merge_angle") {
        Some(ConfigKey::MergeAngle)
    } else if window_equals(text, lo, hi, "repeated_angle") {
        Some(ConfigKey::RepeatedAngle)
    } else if window_equals(text, lo, hi, "flyby_angle") {
        Some(ConfigKey::FlybyAngle)
    } else {
        None
    }
}

/// The assignment that the trimmed line `text[lo..hi]` makes inside the block.
fn read_assignment(text: &Vec<char>, lo: usize, hi: usize) -> (r: Option<ConfigEntry>)
    requires
        lo <= hi <= text.len(),
    ensures
        match r {
            Some(e) => assignment(text@.subrange(lo as int, hi as int)) == Some(e@),
            None => assignment(text@.subrange(lo as int, hi as int)) is None,
        },
{
    let ghost t = text@.subrange(lo as int, hi as int);
    proof {
        lemma_index_from_bounds(t, '=', 0);
        lemma_index_from_bounds(t, ':', 0);
    }
    let split = match find_char(text, lo, hi, '=') {
        Some(k) => Some(k),
        None => find_char(text, lo, hi, ':'),
    };
    match split {
        None => None,
        Some(k) => {
            proof {
                let i = k - lo;
                assert(text@.subrange(lo as int, k as int) =~= t.subrange(0, i));
                assert(text@.subrange(k + 1, hi as int) =~= t.subrange(i + 1, t.len() as int));
            }
            let (ka, kb) = trim_bounds(text, lo, k);
            match lookup_key(text, ka, kb) {
                None => None,
                Some(key) => {
                    let (va, vb) = trim_bounds(text, k + 1, hi);
                    Some(ConfigEntry { key, value: copy_window(text, va, vb) })
                },
            }
        },
    }
}

/// What the trimmed line `text[lo..hi]` does (see `line_effect`).
fn line_step(text: &Vec<char>, lo: usize, hi: usize, in_block: bool) -> (r: (
    bool,
    bool,
    Option<ConfigEntry>,
))
    requires
        lo <= hi <= text.len(),
    ensures
        line_effect(text@.subrange(lo as int, hi as int), in_block) == (
            r.0,
            r.1,
            match r.2 {
                Some(e) => seq![e@],
                None => Seq::<(ConfigKey, Seq<char>)>::empty(),
            },
        ),
{
    if window_starts_with(text, lo, hi, "```config") {
        (true, false, None)
    } else if !in_block {
        (false, false, None)
    } else if window_starts_with(text, lo, hi, "```") {
        (true, true, None)
    } else if hi == lo || text[lo] == '#' {
        (true, false, None)
    } else {
        (true, false, read_assignment(text, lo, hi))
    }
}

/// The assignments of the first `config` block of `text`, in order: the
/// block opens at a line that starts with three backquotes and `config`
/// (after trimming), and closes at the next line that starts with three
/// backquotes; blank lines and lines that start with `#` are skipped.
pub fn config_entries(text: &Vec<char>) -> (r: Vec<ConfigEntry>)
    ensures
        entries_view(r@) == config_entries_of(text@),
{
    let mut out: Vec<ConfigEntry> = Vec::new();
    let mut pos: usize = 0;
    let mut in_block = false;
    loop
        invariant
            pos <= text.len(),
            entries_view(out@) + entries_from(text@, pos as int, in_block) == config_entries_of(
                text@,
            ),
        decreases text.len() - pos,
    {
        let e = match find_char_from(text, pos, '\n') {
            Some(k) => k,
            None => text.len(),
        };
        proof {
            lemma_index_from_bounds(text@, '\n', pos as int);
        }
        assert(e == line_end(text@, pos as int));
        let (a, b) = trim_bounds(text, pos, e);
        let (open, stop, entry) = line_step(text, a, b, in_block);
        let ghost before = entries_view(out@);
        let ghost added = line_effect(trim(text@.subrange(pos as int, e as int)), in_block).2;
        match entry {
            Some(x) => {
                out.push(x);
            },
            None => {},
        }
        assert(entries_view(out@) =~= before + added);
        if stop || e >= text.len() {
            assert(entries_view(out@) =~= before + entries_from(text@, pos as int, in_block));
            return out;
        }
        assert(entries_from(text@, pos as int, in_block) == added + entries_from(
            text@,
            e + 1,
            open,
        ));
        assert(before + (added + entries_from(text@, e + 1, open)) =~= entries_view(out@)
            + entries_from(text@, e + 1, open));
        pos = e + 1;
        in_block = open;
    }
}

pub open spec fn is_digit(c: char) -> bool {
    48 <= c as u32 <= 57
}

pub open spec fn digit_value(c: char) -> int {
    c as u32 - 48
}

/// The number that the decimal digits `d` spell.
pub open spec fn decimal_value(d: Seq<char>) -> int
    decreases d.len(),
{
    if d.len() == 0 {
        0
    } else {
        decimal_value(d.drop_last()) * 10 + digit_value(d.last())
    }
}

/// `s` without one leading `+`, if it has one.
pub open spec fn unsigned_digits(s: Seq<char>) -> Seq<char> {
    if s.len() > 0 && s[0] == '+' {
        s.subrange(1, s.len() as int)
    } else {
        s
    }
}

/// The `usize` that `s` denotes in the syntax of `usize::from_str`: an
/// optional `+`, then one or more ASCII digits, with a value that fits.
pub open spec fn parse_usize_of(s: Seq<char>) -> Option<usize> {
    let d = unsigned_digits(s);
    if d.len() > 0 && (forall|i: int| 0 <= i < d.len() ==> is_digit(#[trigger] d[i]))
        && decimal_value(d) <= usize::MAX {
        Some(decimal_value(d) as usize)
    } else {
        None
    }
}

/// The two trimmed halves of `s` around its one comma; `None` unless `s`
/// holds exactly one comma.
pub open spec fn value_pair_of(s: Seq<char>) -> Option<(Seq<char>, Seq<char>)> {
    match split_once(s, ',') {
        None => None,
        Some((a, b)) => if index_of(b, ',') >= 0 {
            None
        } else {
            Some((trim(a), trim(b)))
        },
    }
}

pub proof fn lemma_decimal_prefix(d: Seq<char>, m: int)
    requires
        0 <= m <= d.len(),
        forall|i: int| 0 <= i < d.len() ==> is_digit(#[trigger] d[i]),
    ensures
        0 <= decimal_value(d.take(m)) <= decimal_value(d),
    decreases d.len(),
{
    if m == d.len() {
        assert(d.take(m) =~= d);
        if d.len() > 0 {
            lemma_decimal_prefix(d.drop_last(), 0);
        }
    } else {
        let e = d.drop_last();
        assert(d.take(m) =~= e.take(m));
        lemma_decimal_prefix(e, m);
        lemma_decimal_prefix(e, e.len() as int);
        assert(e.take(e.len() as int) =~= e);
    }
}

/// Parses `s` as `usize::from_str` does.
pub fn parse_usize(s: &Vec<char>) -> (r: Option<usize>)
    ensures
        r == parse_usize_of(s@),
{
    let start: usize = if s.len() > 0 && s[0] == '+' {
        1
    } else {
        0
    };
    let ghost d = unsigned_digits(s@);
    assert(d =~= s@.subrange(start as int, s@.len() as int));
    if start == s.len() {
        return None;
    }
    let mut acc: usize = 0;
    let mut k: usize = start;
    assert(d.take(0) =~= Seq::<char>::empty());
    while k < s.len()
        invariant
            start <= k <= s.len(),
            start < s.len(),
            d == s@.subrange(start as int, s@.len() as int),
            d == unsigned_digits(s@),
            acc == decimal_value(d.take(k - start)),
            forall|i: int| 0 <= i < k - start ==> is_digit(#[trigger] d[i]),
        decreases s.len() - k,
    {
        let c = s[k];
        let u = c as u32;
        assert(d[k - start] == c);
        if u < 48 || u > 57 {
            assert(!is_digit(d[k - start]));
            return None;
        }
        let v = (u - 48) as usize;
        assert(d.take(k - start + 1).drop_last() =~= d.take(k - start));
        assert(decimal_value(d.take(k - start + 1)) == acc * 10 + v);
        match acc.checked_mul(10) {
            None => {
                proof {
                    if forall|i: int| 0 <= i < d.len() ==> is_digit(#[trigger] d[i]) {
                        lemma_decimal_prefix(d, k - start + 1);
                    }
                }
                return None;
            },
            Some(m) => match m.checked_add(v) {
                None => {
                    proof {
                        if forall|i: int| 0 <= i < d.len() ==> is_digit(#[trigger] d[i]) {
                            lemma_decimal_prefix(d, k - start + 1);
                        }
                    }
                    return None;
                },
                Some(n) => {
                    acc = n;
                },
            },
        }
        k = k + 1;
    }
    assert(d.take(d.len() as int) =~= d);
    Some(acc)
}

/// Splits a `min, max` value at its comma into two trimmed parts.
pub fn split_pair(s: &Vec<char>) -> (r: Option<(Vec<char>, Vec<char>)>)
    ensures
        match r {
            Some((a, b)) => value_pair_of(s@) == Some((a@, b@)),
            None => value_pair_of(s@) is None,
        },
{
    let n = s.len();
    proof {
        lemma_index_from_bounds(s@, ',', 0);
    }
    assert(s@.subrange(0, n as int) =~= s@);
    match find_char(s, 0, n, ',') {
        None => None,
        Some(k) => {
            assert(s@.subrange(k + 1, n as int) =~= s@.subrange(0, n as int).subrange(
                k + 1,
                n as int,
            ));
            match find_char(s, k + 1, n, ',') {
                Some(_) => None,
                None => {
                    assert(s@.subrange(0, k as int) =~= s@.subrange(0, n as int).subrange(
                        0,
                        k as int,
                    ));
                    let (a0, a1) = trim_bounds(s, 0, k);
                    let (b0, b1) = trim_bounds(s, k + 1, n);
                    Some((copy_window(s, a0, a1), copy_window(s, b0, b1)))
                },
            }
        },
    }
}

/// An entry that assigns the body count a value in `usize` syntax.
pub open spec fn valid_count(e: (ConfigKey, Seq<char>)) -> bool {
    e.0 == ConfigKey::N && parse_usize_of(e.1) is Some
}

/// The body count after the entries `es`: the value of the last entry that
/// assigns it validly, or `default` when none does.
pub open spec fn count_setting_of(es: Seq<(ConfigKey, Seq<char>)>, default: usize) -> usize
    decreases es.len(),
{
    if es.len() == 0 {
        default
    } else if valid_count(es.last()) {
        parse_usize_of(es.last().1).unwrap()
    } else {
        count_setting_of(es.drop_last(), default)
    }
}

/// The body count that the entries give, starting from `default`.
pub fn count_setting(entries: &Vec<ConfigEntry>, default: usize) -> (r: usize)
    ensures
        r == count_setting_of(entries_view(entries@), default),
{
    let ghost es = entries_view(entries@);
    let mut current = default;
    let mut k: usize = 0;
    assert(es.take(0) =~= Seq::<(ConfigKey, Seq<char>)>::empty());
    while k < entries.len()
        invariant
            k <= entries.len(),
            es == entries_view(entries@),
            current == count_setting_of(es.take(k as int), default),
        decreases entries.len() - k,
    {
        assert(es.take(k + 1).drop_last() =~= es.take(k as int));
        assert(es.take(k + 1).last() == entries@[k as int]@);
        if entries[k].key == ConfigKey::N {
            match parse_usize(&entries[k].value) {
                Some(v) => {
                    current = v;
                },
                None => {},
            }
        }
        k = k + 1;
    }
    assert(es.take(entries.len() as int) =~= es);
    current
}

/// The name of each setting, as written in the block.
pub open spec fn key_name(k: ConfigKey) -> Seq<char> {
    match k {
        ConfigKey::Dt => "dt"@,
        ConfigKey::N => "n"@,
        ConfigKey::Theta => "theta"@,
        ConfigKey::Epsilon => "epsilon"@,
        ConfigKey::AccretionSpawnRate => "accretion_spawn_rate"@,
        ConfigKey::InnerRadius => "inner_radius"@,
        ConfigKey::OuterRadius => "outer_radius"@,
        ConfigKey::OuterRingSpawnZoneInnerRadius => "outer_ring_spawn_zone_inner_radius"@,
        ConfigKey::OuterRingSpawnZoneOuterRadius => "outer_ring_spawn_zone_outer_radius"@,
        ConfigKey::CentralMass => "central_mass"@,
        ConfigKey::ParticleMassRange => "particle_mass_range"@,
        ConfigKey::InflowStrength => "inflow_strength"@,
        ConfigKey::RestoreStrength => "restore_strength"@,
        ConfigKey::GalaxySeparationFactor => "galaxy_separation_factor"@,
        ConfigKey::ProbMerge => "prob_merge"@,
        ConfigKey::ProbRepeated => "prob_repeated"@,
        ConfigKey::ProbFlyby => "prob_flyby"@,
        ConfigKey::MergeSpeedFactor => "merge_speed_factor"@,
        ConfigKey::RepeatedSpeedFactor => "repeated_speed_factor"@,
        ConfigKey::FlybySpeedFactor => "flyby_speed_factor"@,
        ConfigKey::MergeAngle => "merge_angle"@,
        ConfigKey::RepeatedAngle => "repeated_angle"@,
        ConfigKey::FlybyAngle => "flyby_angle"@,
    }
}

/// Every setting is found by its name, and only by it; names are non-empty
/// and begin with a lower-case letter.
pub proof fn lemma_key_names(k: ConfigKey, name: Seq<char>)
    ensures
        key_named(key_name(k)) == Some(k),
        key_named(name) == Some(k) ==> name == key_name(k),
        key_name(k).len() > 0,
        97 <= key_name(k)[0] as u32 <= 122,
{
    reveal_strlit("dt");
    reveal_strlit("n");
    reveal_strlit("theta");
    reveal_strlit("epsilon");
    reveal_strlit("accretion_spawn_rate");
    reveal_strlit("inner_radius");
    reveal_strlit("outer_radius");
    reveal_strlit("outer_ring_spawn_zone_inner_radius");
    reveal_strlit("outer_ring_spawn_zone_outer_radius");
    reveal_strlit("central_mass");
    reveal_strlit("particle_mass_range");
    reveal_strlit("inflow_strength");
    reveal_strlit("restore_strength");
    reveal_strlit("galaxy_separation_factor");
    reveal_strlit("prob_merge");
    reveal_strlit("prob_repeated");
    reveal_strlit("prob_flyby");
    reveal_strlit("merge_speed_factor");
    reveal_strlit("repeated_speed_factor");
    reveal_strlit("flyby_speed_factor");
    reveal_strlit("merge_angle");
    reveal_strlit("repeated_angle");
    reveal_strlit("flyby_angle");
    assert("dt"@.len() == 2);
    assert("n"@.len() == 1);
    assert("theta"@.len() == 5);
    assert("epsilon"@.len() == 7);
    assert("accretion_spawn_rate"@.len() == 20);
    assert("inner_radius"@.len() == 12);
    assert("outer_radius"@.len() == 12);
    assert("outer_ring_spawn_zone_inner_radius"@.len() == 34);
    assert("outer_ring_spawn_zone_outer_radius"@.len() == 34);
    assert("central_mass"@.len() == 12);
    assert("particle_mass_range"@.len() == 19);
    assert("inflow_strength"@.len() == 15);
    assert("restore_strength"@.len() == 16);
    assert("galaxy_separation_factor"@.len() == 24);
    assert("prob_merge"@.len() == 10);
    assert("prob_repeated"@.len() == 13);
    assert("prob_flyby"@.len() == 10);
    assert("merge_speed_factor"@.len() == 18);
    assert("repeated_speed_factor"@.len() == 21);
    assert("flyby_speed_factor"@.len() == 18);
    assert("merge_angle"@.len() == 11);
    assert("repeated_angle"@.len() == 14);
    assert("flyby_angle"@.len() == 11);
    assert("inner_radius"@[0] != "outer_radius"@[0]);
    assert("inner_radius"@[0] != "central_mass"@[0]);
    assert("outer_radius"@[0] != "central_mass"@[0]);
    assert("outer_ring_spawn_zone_inner_radius"@[22] != "outer_ring_spawn_zone_outer_radius"@[22]);
    assert("prob_merge"@[5] != "prob_flyby"@[5]);
    assert("merge_speed_factor"@[0] != "flyby_speed_factor"@[0]);
    assert("merge_angle"@[0] != "flyby_angle"@[0]);
}

} // verus!
