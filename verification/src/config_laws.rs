//! What the `config` block reader guarantees of every text.
use vstd::prelude::*;

use crate::config::{
    assignment, config_entries_of, count_setting_of, decimal_value, entries_from, key_name,
    lemma_key_names, line_effect, line_end, parse_usize_of, unsigned_digits,
    valid_count, value_pair_of, ConfigKey,
};
use crate::text::{
    is_white_space, lemma_index_from_bounds, lemma_index_of_at, lemma_index_of_none,
    lemma_skip_white_back_le, lemma_trim_is, lemma_trim_shape, skip_white_back, skip_white_from,
    split_once, starts_with, trim,
};

verus! {

/// `p` is where a line of `s` begins.
pub open spec fn is_line_start(s: Seq<char>, p: int) -> bool {
    0 <= p <= s.len() && (p == 0 || s[p - 1] == '\n')
}

/// The trimmed line of `s` that begins at `p`.
pub open spec fn trimmed_line(s: Seq<char>, p: int) -> Seq<char> {
    trim(s.subrange(p, line_end(s, p)))
}

/// `t` neither begins nor ends with whitespace.
pub open spec fn is_trimmed(t: Seq<char>) -> bool {
    t.len() > 0 ==> !is_white_space(t[0]) && !is_white_space(t[t.len() - 1])
}

proof fn lemma_line_end(s: Seq<char>, p: int)
    requires
        0 <= p <= s.len(),
    ensures
        p <= line_end(s, p) <= s.len(),
        line_end(s, p) < s.len() ==> s[line_end(s, p)] == '\n',
{
    lemma_index_from_bounds(s, '\n', p);
}

proof fn lemma_no_block_from(s: Seq<char>, pos: int)
    requires
        is_line_start(s, pos),
        forall|p: int| #[trigger]
            is_line_start(s, p) ==> !starts_with(trimmed_line(s, p), "```config"@),
    ensures
        entries_from(s, pos, false) == Seq::<(crate::config::ConfigKey, Seq<char>)>::empty(),
    decreases s.len() - pos,
{
    lemma_line_end(s, pos);
    let e = line_end(s, pos);
    assert(!starts_with(trimmed_line(s, pos), "```config"@));
    if e < s.len() {
        assert(is_line_start(s, e + 1));
        lemma_no_block_from(s, e + 1);
    }
}

/// A text none of whose lines opens a `config` block assigns nothing.
pub proof fn lemma_no_block_no_entries(s: Seq<char>)
    requires
        forall|p: int| #[trigger]
            is_line_start(s, p) ==> !starts_with(trimmed_line(s, p), "```config"@),
    ensures
        config_entries_of(s) == Seq::<(crate::config::ConfigKey, Seq<char>)>::empty(),
{
    assert(is_line_start(s, 0));
    lemma_no_block_from(s, 0);
}

proof fn lemma_skip_white_from_stops(s: Seq<char>, i: int)
    requires
        0 <= i,
    ensures
        i <= skip_white_from(s, i),
        skip_white_from(s, i) < s.len() ==> !is_white_space(s[skip_white_from(s, i)]),
    decreases s.len() - i,
{
    if 0 <= i < s.len() && is_white_space(s[i]) {
        lemma_skip_white_from_stops(s, i + 1);
    }
}

proof fn lemma_skip_white_back_stops(s: Seq<char>, j: int)
    requires
        j <= s.len(),
    ensures
        0 < skip_white_back(s, j) ==> !is_white_space(s[skip_white_back(s, j) - 1]),
    decreases j,
{
    if 0 < j <= s.len() && is_white_space(s[j - 1]) {
        lemma_skip_white_back_stops(s, j - 1);
    }
}

/// Trimming leaves no whitespace at either end.
pub proof fn lemma_trim_is_trimmed(s: Seq<char>)
    ensures
        is_trimmed(trim(s)),
{
    lemma_skip_white_from_stops(s, 0);
    lemma_skip_white_back_stops(s, s.len() as int);
    lemma_skip_white_back_le(s, s.len() as int);
}

proof fn lemma_values_trimmed_from(s: Seq<char>, pos: int, in_block: bool)
    ensures
        forall|k: int| 0 <= k < entries_from(s, pos, in_block).len() ==> is_trimmed(
            #[trigger] entries_from(s, pos, in_block)[k].1,
        ),
    decreases s.len() - pos,
{
    if 0 <= pos <= s.len() {
        lemma_line_end(s, pos);
        let e = line_end(s, pos);
        let t = trim(s.subrange(pos, e));
        let (open, stop, out) = line_effect(t, in_block);
        assert forall|k: int| 0 <= k < out.len() implies is_trimmed(#[trigger] out[k].1) by {
            match assignment(t) {
                Some(a) => {
                    let pair = match crate::text::split_once(t, '=') {
                        Some(p) => Some(p),
                        None => crate::text::split_once(t, ':'),
                    };
                    lemma_trim_is_trimmed(pair.unwrap().1);
                },
                None => {},
            }
        }
        if !(stop || e >= s.len()) {
            lemma_values_trimmed_from(s, e + 1, open);
            let rest = entries_from(s, e + 1, open);
            assert forall|k: int| 0 <= k < (out + rest).len() implies is_trimmed(
                #[trigger] (out + rest)[k].1,
            ) by {
                if k >= out.len() {
                    assert((out + rest)[k] == rest[k - out.len()]);
                }
            }
        }
    }
}

/// Every value read from the block is trimmed: it neither begins nor ends
/// with whitespace.
pub proof fn lemma_values_trimmed(s: Seq<char>)
    ensures
        forall|k: int| 0 <= k < config_entries_of(s).len() ==> is_trimmed(
            #[trigger] config_entries_of(s)[k].1,
        ),
{
    lemma_values_trimmed_from(s, 0, false);
}

/// The lines of `s` from position `pos` on, split at `\n`.
pub open spec fn lines_from(s: Seq<char>, pos: int) -> Seq<Seq<char>>
    decreases s.len() - pos,
{
    if pos < 0 || pos > s.len() {
        seq![]
    } else {
        let e = line_end(s, pos);
        if e >= s.len() {
            seq![s.subrange(pos, e)]
        } else {
            proof {
                lemma_index_from_bounds(s, '\n', pos);
            }
            seq![s.subrange(pos, e)] + lines_from(s, e + 1)
        }
    }
}

/// The lines of `s`, split at `\n`.
pub open spec fn lines(s: Seq<char>) -> Seq<Seq<char>> {
    lines_from(s, 0)
}

/// A trimmed line that opens the block.
pub open spec fn opens_block(t: Seq<char>) -> bool {
    starts_with(t, "```config"@)
}

/// A trimmed line that closes the block: it starts with three backquotes
/// but does not open a block.
pub open spec fn closes_block(t: Seq<char>) -> bool {
    starts_with(t, "```"@) && !opens_block(t)
}

/// What a trimmed line inside the block assigns: nothing for a blank line, a
/// comment or a repeated opening line; else its assignment, if any.
pub open spec fn block_line_entries(t: Seq<char>) -> Seq<(ConfigKey, Seq<char>)> {
    if opens_block(t) || t.len() == 0 || t[0] == '#' {
        seq![]
    } else {
        match assignment(t) {
            Some(e) => seq![e],
            None => seq![],
        }
    }
}

/// The assignments of the lines `ls`, in order.
pub open spec fn entries_of_lines(ls: Seq<Seq<char>>) -> Seq<(ConfigKey, Seq<char>)>
    decreases ls.len(),
{
    if ls.len() == 0 {
        seq![]
    } else {
        block_line_entries(trim(ls[0])) + entries_of_lines(ls.drop_first())
    }
}

/// The reader run over a list of lines, from the given block state.
spec fn scan_lines(ls: Seq<Seq<char>>, in_block: bool) -> Seq<(ConfigKey, Seq<char>)>
    decreases ls.len(),
{
    if ls.len() == 0 {
        seq![]
    } else {
        let (open, stop, out) = line_effect(trim(ls[0]), in_block);
        if stop || ls.len() == 1 {
            out
        } else {
            out + scan_lines(ls.drop_first(), open)
        }
    }
}

proof fn lemma_lines_from_nonempty(s: Seq<char>, pos: int)
    requires
        0 <= pos <= s.len(),
    ensures
        lines_from(s, pos).len() >= 1,
{
}

proof fn lemma_scan_matches_lines(s: Seq<char>, pos: int, in_block: bool)
    requires
        0 <= pos <= s.len(),
    ensures
        entries_from(s, pos, in_block) == scan_lines(lines_from(s, pos), in_block),
    decreases s.len() - pos,
{
    lemma_line_end(s, pos);
    let e = line_end(s, pos);
    if e < s.len() {
        lemma_scan_matches_lines(s, e + 1, line_effect(trim(s.subrange(pos, e)), in_block).0);
        lemma_lines_from_nonempty(s, e + 1);
        let ls = lines_from(s, pos);
        assert(ls.drop_first() =~= lines_from(s, e + 1));
    }
}

proof fn lemma_scan_before_block(ls: Seq<Seq<char>>, o: int)
    requires
        0 <= o < ls.len(),
        opens_block(trim(ls[o])),
        forall|k: int| 0 <= k < o ==> !opens_block(#[trigger] trim(ls[k])),
    ensures
        scan_lines(ls, false) == scan_lines(ls.skip(o + 1), true),
    decreases o,
{
    if o == 0 {
        if ls.len() > 1 {
            assert(ls.drop_first() =~= ls.skip(1));
        } else {
            assert(ls.skip(1) =~= Seq::<Seq<char>>::empty());
        }
    } else {
        let rest = ls.drop_first();
        assert(!opens_block(trim(ls[0])));
        assert forall|k: int| 0 <= k < o - 1 implies !opens_block(#[trigger] trim(rest[k])) by {
            assert(rest[k] == ls[k + 1]);
        }
        assert(rest[o - 1] == ls[o]);
        lemma_scan_before_block(rest, o - 1);
        assert(rest.skip(o) =~= ls.skip(o + 1));
    }
}

proof fn lemma_scan_inside_block(ls: Seq<Seq<char>>, c: int)
    requires
        0 <= c <= ls.len(),
        forall|k: int| 0 <= k < c ==> !closes_block(#[trigger] trim(ls[k])),
        c == ls.len() || closes_block(trim(ls[c])),
    ensures
        scan_lines(ls, true) == entries_of_lines(ls.take(c)),
    decreases c,
{
    if c == 0 {
        assert(ls.take(0) =~= Seq::<Seq<char>>::empty());
        if ls.len() > 0 {
            let t = trim(ls[0]);
            assert(closes_block(t));
            assert(line_effect(t, true) == (true, true, Seq::<(ConfigKey, Seq<char>)>::empty()));
        }
    } else {
        let rest = ls.drop_first();
        let t = trim(ls[0]);
        assert(!closes_block(t));
        assert(line_effect(t, true) == (true, false, block_line_entries(t)));
        assert(entries_of_lines(ls.take(c)) == block_line_entries(t) + entries_of_lines(
            ls.take(c).drop_first(),
        ));
        assert(ls.take(c).drop_first() =~= rest.take(c - 1));
        if ls.len() > 1 {
            assert forall|k: int| 0 <= k < c - 1 implies !closes_block(#[trigger] trim(rest[k])) by {
                assert(rest[k] == ls[k + 1]);
            }
            if c < ls.len() {
                assert(rest[c - 1] == ls[c]);
            }
            lemma_scan_inside_block(rest, c - 1);
        } else {
            assert(rest.take(0) =~= Seq::<Seq<char>>::empty());
        }
    }
}

/// The assignments of a text are exactly those of the lines strictly between
/// its first opening line (line `o`) and the next closing line (line `c`, or
/// the end of the text when `c` is the number of lines), in order.
pub proof fn lemma_block_entries(s: Seq<char>, o: int, c: int)
    requires
        0 <= o < c <= lines(s).len(),
        opens_block(trim(lines(s)[o])),
        forall|k: int| 0 <= k < o ==> !opens_block(#[trigger] trim(lines(s)[k])),
        forall|k: int| o < k < c ==> !closes_block(#[trigger] trim(lines(s)[k])),
        c == lines(s).len() || closes_block(trim(lines(s)[c])),
    ensures
        config_entries_of(s) == entries_of_lines(lines(s).subrange(o + 1, c)),
{
    let ls = lines(s);
    lemma_scan_matches_lines(s, 0, false);
    lemma_scan_before_block(ls, o);
    let rest = ls.skip(o + 1);
    assert forall|k: int| 0 <= k < c - o - 1 implies !closes_block(#[trigger] trim(rest[k])) by {
        assert(rest[k] == ls[o + 1 + k]);
    }
    if c < ls.len() {
        assert(rest[c - o - 1] == ls[c]);
    }
    lemma_scan_inside_block(rest, c - o - 1);
    assert(rest.take(c - o - 1) =~= ls.subrange(o + 1, c));
}

proof fn lemma_scan_no_block(ls: Seq<Seq<char>>)
    requires
        forall|k: int| 0 <= k < ls.len() ==> !opens_block(#[trigger] trim(ls[k])),
    ensures
        scan_lines(ls, false) == Seq::<(ConfigKey, Seq<char>)>::empty(),
    decreases ls.len(),
{
    if ls.len() > 1 {
        let rest = ls.drop_first();
        assert(!opens_block(trim(ls[0])));
        assert forall|k: int| 0 <= k < rest.len() implies !opens_block(#[trigger] trim(rest[k])) by {
            assert(rest[k] == ls[k + 1]);
        }
        lemma_scan_no_block(rest);
    } else if ls.len() == 1 {
        assert(!opens_block(trim(ls[0])));
    }
}

/// A text none of whose lines opens the block assigns nothing.
pub proof fn lemma_no_opening_line(s: Seq<char>)
    requires
        forall|k: int| 0 <= k < lines(s).len() ==> !opens_block(#[trigger] trim(lines(s)[k])),
    ensures
        config_entries_of(s) == Seq::<(ConfigKey, Seq<char>)>::empty(),
{
    lemma_scan_matches_lines(s, 0, false);
    lemma_scan_no_block(lines(s));
}

/// The body count is the value of the last entry that assigns it validly.
pub proof fn lemma_count_is_last_valid(es: Seq<(ConfigKey, Seq<char>)>, default: usize, k: int)
    requires
        0 <= k < es.len(),
        valid_count(es[k]),
        forall|m: int| k < m < es.len() ==> !valid_count(#[trigger] es[m]),
    ensures
        count_setting_of(es, default) == parse_usize_of(es[k].1).unwrap(),
    decreases es.len(),
{
    if k < es.len() - 1 {
        let e = es.drop_last();
        assert(!valid_count(es[es.len() - 1]));
        assert forall|m: int| k < m < e.len() implies !valid_count(#[trigger] e[m]) by {
            assert(e[m] == es[m]);
        }
        assert(e[k] == es[k]);
        lemma_count_is_last_valid(e, default, k);
    }
}

/// Without an entry that assigns it validly, the body count keeps its default.
pub proof fn lemma_count_default(es: Seq<(ConfigKey, Seq<char>)>, default: usize)
    requires
        forall|m: int| 0 <= m < es.len() ==> !valid_count(#[trigger] es[m]),
    ensures
        count_setting_of(es, default) == default,
    decreases es.len(),
{
    if es.len() > 0 {
        let e = es.drop_last();
        assert(!valid_count(es[es.len() - 1]));
        assert forall|m: int| 0 <= m < e.len() implies !valid_count(#[trigger] e[m]) by {
            assert(e[m] == es[m]);
        }
        lemma_count_default(e, default);
    }
}

// ---------------------------------------------------------------------------
// Assignment lines

/// A line of the block made of a part `a` that trims to the name of setting
/// `k`, the separator `sep`, and any rest `v` assigns `k` the value `trim(v)`,
/// whatever `trim(v)` holds. The separator is the first `=` of the line, or,
/// when the line has no `=`, its first `:`.
pub proof fn lemma_assignment_line(a: Seq<char>, sep: char, v: Seq<char>, k: ConfigKey)
    requires
        sep == '=' || sep == ':',
        forall|i: int| 0 <= i < a.len() ==> a[i] != '=',
        sep == ':' ==> forall|i: int| 0 <= i < a.len() ==> a[i] != ':',
        sep == ':' ==> forall|i: int| 0 <= i < v.len() ==> v[i] != '=',
        trim(a) == key_name(k),
    ensures
        line_effect(trim(a + seq![sep] + v), true) == (
            true,
            false,
            seq![(k, trim(v))],
        ),
        block_line_entries(trim(a + seq![sep] + v)) == seq![(k, trim(v))],
{
    let t = a + seq![sep] + v;
    let la = a.len() as int;
    lemma_key_names(k, trim(a));
    let (pa, qa) = lemma_trim_shape(a);
    let (pv, qv) = lemma_trim_shape(v);
    assert(pa < qa);
    let q = if pv < qv {
        la + 1 + qv
    } else {
        la + 1
    };
    assert forall|i: int| 0 <= i < pa implies is_white_space(#[trigger] t[i]) by {
        assert(t[i] == a[i]);
    }
    assert forall|i: int| q <= i < t.len() implies is_white_space(#[trigger] t[i]) by {
        assert(t[i] == v[i - la - 1]);
    }
    assert(t[pa] == a[pa]);
    if pv < qv {
        assert(t[q - 1] == v[qv - 1]);
    } else {
        assert(t[q - 1] == sep);
    }
    lemma_trim_is(t, pa, q);
    let w = t.subrange(pa, q);
    assert(trim(t) == w);
    // the separator is the first of its kind in the trimmed line
    let m = la - pa;
    assert(w[m] == sep);
    assert forall|i: int| 0 <= i < m implies w[i] != sep by {
        assert(w[i] == a[pa + i]);
    }
    lemma_index_of_at(w, sep, m);
    if sep == ':' {
        assert forall|i: int| 0 <= i < w.len() implies w[i] != '=' by {
            if pa + i < la {
                assert(w[i] == a[pa + i]);
            } else if pa + i > la {
                assert(w[i] == v[pa + i - la - 1]);
            }
        }
        lemma_index_of_none(w, '=');
    }
    assert(split_once(w, sep) == Some((w.subrange(0, m), w.subrange(m + 1, w.len() as int))));
    // the key part trims to the setting's name
    let left = w.subrange(0, m);
    assert(left =~= a.subrange(pa, la));
    assert forall|i: int| qa - pa <= i < left.len() implies is_white_space(#[trigger] left[i]) by {
        assert(left[i] == a[pa + i]);
    }
    assert(left[0] == a[pa]);
    assert(left[qa - pa - 1] == a[qa - 1]);
    lemma_trim_is(left, 0, qa - pa);
    assert(trim(left) =~= a.subrange(pa, qa));
    // the value part trims to trim(v)
    let right = w.subrange(m + 1, w.len() as int);
    if pv < qv {
        assert(right =~= v.subrange(0, qv));
        assert forall|i: int| 0 <= i < pv implies is_white_space(#[trigger] right[i]) by {
            assert(right[i] == v[i]);
        }
        assert(right[pv] == v[pv]);
        assert(right[qv - 1] == v[qv - 1]);
        lemma_trim_is(right, pv, qv);
        assert(trim(right) =~= v.subrange(pv, qv));
    } else {
        assert(right =~= Seq::<char>::empty());
        assert(trim(right) =~= Seq::<char>::empty());
        assert(trim(v) =~= Seq::<char>::empty());
    }
    assert(assignment(w) == Some((k, trim(v))));
    assert(w[0] == key_name(k)[0]);
    assert(!starts_with(w, "```config"@)) by {
        reveal_strlit("```config");
        if starts_with(w, "```config"@) {
            assert(w.subrange(0, 9)[0] == w[0]);
        }
    }
    assert(!starts_with(w, "```"@)) by {
        reveal_strlit("```");
        if starts_with(w, "```"@) {
            assert(w.subrange(0, 3)[0] == w[0]);
        }
    }
}

/// A line of the block with neither `=` nor `:` assigns nothing.
pub proof fn lemma_line_without_separator(t: Seq<char>)
    requires
        forall|i: int| 0 <= i < t.len() ==> t[i] != '=' && t[i] != ':',
    ensures
        block_line_entries(trim(t)).len() == 0,
{
    let (p, q) = lemma_trim_shape(t);
    let w = trim(t);
    assert forall|i: int| 0 <= i < w.len() implies w[i] != '=' && w[i] != ':' by {
        assert(w[i] == t[p + i]);
    }
    lemma_index_of_none(w, '=');
    lemma_index_of_none(w, ':');
}

/// A line whose part before its separator names no setting assigns nothing.
pub proof fn lemma_line_without_setting(a: Seq<char>, sep: char, v: Seq<char>)
    requires
        sep == '=' || sep == ':',
        forall|i: int| 0 <= i < a.len() ==> a[i] != '=',
        sep == ':' ==> forall|i: int| 0 <= i < a.len() ==> a[i] != ':',
        sep == ':' ==> forall|i: int| 0 <= i < v.len() ==> v[i] != '=',
        forall|k: ConfigKey| trim(a) != #[trigger] key_name(k),
    ensures
        block_line_entries(trim(a + seq![sep] + v)).len() == 0,
{
    let w = trim(a + seq![sep] + v);
    match assignment(w) {
        Some((k, x)) => {
            // the key part of the trimmed line trims to trim(a)
            lemma_assignment_key_part(a, sep, v);
            lemma_key_names(k, trim(a));
            assert(trim(a) != key_name(k));
        },
        None => {},
    }
}

/// When the line splits at its separator after `a`, the key part of the
/// trimmed line trims to `trim(a)`.
proof fn lemma_assignment_key_part(a: Seq<char>, sep: char, v: Seq<char>)
    requires
        sep == '=' || sep == ':',
        forall|i: int| 0 <= i < a.len() ==> a[i] != '=',
        sep == ':' ==> forall|i: int| 0 <= i < a.len() ==> a[i] != ':',
        sep == ':' ==> forall|i: int| 0 <= i < v.len() ==> v[i] != '=',
    ensures
        ({
            let w = trim(a + seq![sep] + v);
            let pair = match split_once(w, '=') {
                Some(p) => Some(p),
                None => split_once(w, ':'),
            };
            pair is Some && trim(pair.unwrap().0) == trim(a)
        }),
{
    let t = a + seq![sep] + v;
    let la = a.len() as int;
    let (pt, qt) = lemma_trim_shape(t);
    let w = t.subrange(pt, qt);
    // the separator is not whitespace, so it lies inside the trimmed line
    assert(t[la] == sep);
    assert(pt <= la < qt) by {
        if la < pt {
            assert(is_white_space(t[la]));
        }
        if la >= qt {
            assert(is_white_space(t[la]));
        }
    }
    let m = la - pt;
    assert(w[m] == sep);
    assert forall|i: int| 0 <= i < m implies w[i] != sep by {
        assert(w[i] == a[pt + i]);
    }
    lemma_index_of_at(w, sep, m);
    if sep == ':' {
        assert forall|i: int| 0 <= i < w.len() implies w[i] != '=' by {
            if pt + i < la {
                assert(w[i] == a[pt + i]);
            } else if pt + i > la {
                assert(w[i] == v[pt + i - la - 1]);
            }
        }
        lemma_index_of_none(w, '=');
    }
    let left = w.subrange(0, m);
    assert(left =~= a.subrange(pt, la));
    let (pa, qa) = lemma_trim_shape(a);
    if pa < qa {
        assert(pt == pa) by {
            if pt < pa {
                assert(t[pt] == a[pt]);
            }
            if pa < pt {
                assert(t[pa] == a[pa]);
            }
        }
        assert forall|i: int| qa - pa <= i < left.len() implies is_white_space(#[trigger] left[i]) by {
            assert(left[i] == a[pa + i]);
        }
        assert(left[0] == a[pa]);
        assert(left[qa - pa - 1] == a[qa - 1]);
        lemma_trim_is(left, 0, qa - pa);
        assert(trim(left) =~= a.subrange(pa, qa));
    } else {
        assert forall|i: int| 0 <= i < left.len() implies is_white_space(#[trigger] left[i]) by {
            assert(left[i] == a[pt + i]);
        }
        let (pl, ql) = lemma_trim_shape(left);
        if pl < ql {
            assert(!is_white_space(left[pl]));
        }
        assert(trim(left) =~= Seq::<char>::empty());
        assert(trim(a) =~= Seq::<char>::empty());
    }
}

// ---------------------------------------------------------------------------
// The body count

/// No entries leave the body count at its default.
pub proof fn lemma_count_no_entries(default: usize)
    ensures
        count_setting_of(Seq::<(ConfigKey, Seq<char>)>::empty(), default) == default,
{
}

/// An entry for any other setting leaves the body count as it was.
pub proof fn lemma_count_other_setting(
    es: Seq<(ConfigKey, Seq<char>)>,
    k: ConfigKey,
    s: Seq<char>,
    default: usize,
)
    requires
        k != ConfigKey::N,
    ensures
        count_setting_of(es.push((k, s)), default) == count_setting_of(es, default),
{
    assert(es.push((k, s)).drop_last() =~= es);
}

/// An entry for the body count whose value parses as the `usize` `v` sets the
/// count to `v`, whatever `v` is.
pub proof fn lemma_count_parsed(es: Seq<(ConfigKey, Seq<char>)>, s: Seq<char>, v: usize, default: usize)
    requires
        parse_usize_of(s) == Some(v),
    ensures
        count_setting_of(es.push((ConfigKey::N, s)), default) == v,
{
    assert(es.push((ConfigKey::N, s)).last() == (ConfigKey::N, s));
}

/// An entry for the body count whose value does not parse leaves the count as
/// it was.
pub proof fn lemma_count_unparsed(es: Seq<(ConfigKey, Seq<char>)>, s: Seq<char>, default: usize)
    requires
        parse_usize_of(s) is None,
    ensures
        count_setting_of(es.push((ConfigKey::N, s)), default) == count_setting_of(es, default),
{
    assert(es.push((ConfigKey::N, s)).drop_last() =~= es);
}

// ---------------------------------------------------------------------------
// `usize` syntax

/// A single ASCII digit denotes its own value.
pub proof fn lemma_parse_digit(c: char)
    requires
        48 <= c as u32 <= 57,
    ensures
        parse_usize_of(seq![c]) == Some((c as u32 - 48) as usize),
{
    let d = seq![c];
    assert(unsigned_digits(d) =~= d);
    assert(d.drop_last() =~= Seq::<char>::empty());
    assert(d.last() == c);
    assert(decimal_value(Seq::<char>::empty()) == 0);
    assert(decimal_value(d) == c as u32 - 48);
    assert(forall|i: int| 0 <= i < d.len() ==> crate::config::is_digit(#[trigger] d[i]));
}

/// Appending a digit to a number multiplies it by ten and adds the digit,
/// unless that no longer fits in a `usize`.
pub proof fn lemma_parse_append_digit(s: Seq<char>, c: char, n: usize)
    requires
        parse_usize_of(s) == Some(n),
        48 <= c as u32 <= 57,
    ensures
        parse_usize_of(s.push(c)) == (if n * 10 + (c as u32 - 48) <= usize::MAX {
            Some((n * 10 + (c as u32 - 48)) as usize)
        } else {
            None
        }),
{
    let d = unsigned_digits(s);
    let e = unsigned_digits(s.push(c));
    assert(s.len() > 0);
    assert(e =~= d.push(c));
    assert(e.drop_last() =~= d);
    crate::config::lemma_decimal_prefix(d, d.len() as int);
    assert(d.take(d.len() as int) =~= d);
    assert(decimal_value(d) == n);
    assert(decimal_value(e) == n * 10 + (c as u32 - 48));
    assert forall|i: int| 0 <= i < e.len() implies crate::config::is_digit(#[trigger] e[i]) by {
        if i < d.len() {
            assert(e[i] == d[i]);
        }
    }
}

/// One leading `+` does not change the number.
pub proof fn lemma_parse_plus(d: Seq<char>)
    requires
        d.len() > 0 ==> d[0] != '+',
    ensures
        parse_usize_of(seq!['+'] + d) == parse_usize_of(d),
{
    assert(unsigned_digits(seq!['+'] + d) =~= d);
    assert(unsigned_digits(d) =~= d);
}

/// A character that is neither a digit nor a leading `+` makes the text no
/// number; so does the empty text.
pub proof fn lemma_parse_rejects(s: Seq<char>, i: int)
    requires
        0 <= i < s.len(),
        !(48 <= s[i] as u32 <= 57),
        !(i == 0 && s[i] == '+'),
    ensures
        parse_usize_of(s) is None,
        parse_usize_of(Seq::<char>::empty()) is None,
{
    let d = unsigned_digits(s);
    if s[0] == '+' {
        assert(d[i - 1] == s[i]);
    } else {
        assert(d[i] == s[i]);
    }
}

// ---------------------------------------------------------------------------
// `min, max` pairs

/// A text with exactly one comma splits there into its two trimmed halves,
/// whatever they hold and whether or not whitespace surrounds the comma.
pub proof fn lemma_pair_split(x: Seq<char>, y: Seq<char>)
    requires
        forall|i: int| 0 <= i < x.len() ==> x[i] != ',',
        forall|i: int| 0 <= i < y.len() ==> y[i] != ',',
    ensures
        value_pair_of(x + seq![','] + y) == Some((trim(x), trim(y))),
{
    let s = x + seq![','] + y;
    let l = x.len() as int;
    assert forall|i: int| 0 <= i < l implies s[i] != ',' by {
        assert(s[i] == x[i]);
    }
    lemma_index_of_at(s, ',', l);
    assert(s.subrange(0, l) =~= x);
    assert(s.subrange(l + 1, s.len() as int) =~= y);
    lemma_index_of_none(y, ',');
}

/// A text without a comma is no pair.
pub proof fn lemma_pair_without_comma(s: Seq<char>)
    requires
        forall|i: int| 0 <= i < s.len() ==> s[i] != ',',
    ensures
        value_pair_of(s) is None,
{
    lemma_index_of_none(s, ',');
}

/// A text with more than one comma is no pair.
pub proof fn lemma_pair_many_commas(x: Seq<char>, y: Seq<char>, j: int)
    requires
        forall|i: int| 0 <= i < x.len() ==> x[i] != ',',
        0 <= j < y.len(),
        y[j] == ',',
    ensures
        value_pair_of(x + seq![','] + y) is None,
{
    let s = x + seq![','] + y;
    let l = x.len() as int;
    assert forall|i: int| 0 <= i < l implies s[i] != ',' by {
        assert(s[i] == x[i]);
    }
    lemma_index_of_at(s, ',', l);
    assert(s.subrange(l + 1, s.len() as int) =~= y);
    lemma_index_from_bounds(y, ',', 0);
}

} // verus!
