//! The `.vtswap` job's vt-swap knobs. A `.vtswap` file is a superset of a `.sta` timing job:
//! besides the timing keys it carries
//!
//! ```text
//! group:      INV_LVT INV INV_HVT    # iso-footprint Vt flavors, FASTEST -> SLOWEST (repeatable)
//! objective:  leakage                # leakage | timing  (default: leakage)
//! effort:     medium                 # low | medium | high  (iteration budget)
//! dont_touch: clk_* *scan*           # instance-name globs to leave alone
//! ```
//!
//! Group order is fastest -> slowest (low-Vt -> high-Vt): "go faster" is a step to the left,
//! "save leakage" a step to the right.
use vstd::prelude::*;

use crate::text::{
    chars_of, find_char, lemma_pos_of, lemma_split_by_single, lemma_strip_lead, lemma_strip_trail, free_of, has_infix, lemma_before_free, lemma_take_skip_free,
    lemma_split_by_append, lemma_trim_free, lemma_words_free, is_item_sep, is_ws, lemma_non_empty_pieces, trim_all, has_prefix, has_suffix, items, lemma_split_by_step, matches_at,
    occurs_at, pos_of, split_by, split_items, split_words, str_eq, strs, trim, trim_range, trim_stars,
    trim_stars_range, words,
};

verus! {

/// What to optimize for.
#[derive(Debug, Clone, Copy, PartialEq, Eq, Structural)]
pub enum Objective {
    /// Recover leakage: push positive-slack cells to the highest-Vt flavor that still meets
    /// timing. The standard post-closure use.
    Leakage,
    /// Close setup WNS: drop critical-path cells to a faster (lower-Vt) flavor, then recover
    /// leakage on the remaining slack.
    Timing,
}

/// The vt-swap-specific configuration (everything beyond the timing setup).
#[derive(Debug, Clone)]
pub struct VtCfg {
    /// Iso-footprint Vt families, each ordered fastest (low-Vt) -> slowest (high-Vt).
    pub groups: Vec<Vec<String>>,
    pub objective: Objective,
    /// Iteration budget (derived from `effort:`).
    pub effort: usize,
    /// Instance-name globs (supporting a leading/trailing `*`) to never modify.
    pub dont_touch: Vec<String>,
}

/// The mathematical content of a [`VtCfg`].
pub struct CfgView {
    pub groups: Seq<Seq<Seq<char>>>,
    pub objective: Objective,
    pub effort: nat,
    pub dont_touch: Seq<Seq<char>>,
}

/// The views of a sequence of string vectors.
pub open spec fn groups_view(gs: Seq<Vec<String>>) -> Seq<Seq<Seq<char>>> {
    gs.map_values(|g: Vec<String>| strs(g@))
}

impl View for VtCfg {
    type V = CfgView;

    open spec fn view(&self) -> CfgView {
        CfgView {
            groups: groups_view(self.groups@),
            objective: self.objective,
            effort: self.effort as nat,
            dont_touch: strs(self.dont_touch@),
        }
    }
}

// ---------------------------------------------------------------------------------------
// Glob matching
// ---------------------------------------------------------------------------------------

/// The tiny glob language of `dont_touch:`: a single leading and/or trailing `*` (`clk_*`,
/// `*scan*`, `*_reg`); exact match otherwise. With a `*` at both ends the pattern matches any
/// name that contains the pattern with all its outer `*` removed.
pub open spec fn glob(pat: Seq<char>, s: Seq<char>) -> bool {
    let lead = pat.len() > 0 && pat[0] == '*';
    let trail = pat.len() > 0 && pat.last() == '*';
    if lead && trail {
        has_infix(s, trim_stars(pat))
    } else if lead {
        has_suffix(s, pat.drop_first())
    } else if trail {
        has_prefix(s, pat.drop_last())
    } else {
        s == pat
    }
}

/// Whether `q[a..b]` occurs in `t`.
fn contains_range(t: &Vec<char>, q: &Vec<char>, a: usize, b: usize) -> (r: bool)
    requires
        a <= b <= q.len(),
    ensures
        r == has_infix(t@, q@.subrange(a as int, b as int)),
{
    let ghost p = q@.subrange(a as int, b as int);
    let m = b - a;
    if m > t.len() {
        assert forall|i: int| !occurs_at(t@, p, i) by {}
        return false;
    }
    let last = t.len() - m;
    let mut i: usize = 0;
    while i < last
        invariant
            a <= b <= q.len(),
            m == b - a,
            i <= last,
            last + m == t.len(),
            p == q@.subrange(a as int, b as int),
            forall|j: int| 0 <= j < i ==> !occurs_at(t@, p, j),
        decreases last - i,
    {
        if matches_at(t, q, a, b, i) {
            assert(occurs_at(t@, p, i as int));
            return true;
        }
        i = i + 1;
    }
    if matches_at(t, q, a, b, last) {
        assert(occurs_at(t@, p, last as int));
        return true;
    }
    assert forall|j: int| !occurs_at(t@, p, j) by {
        if 0 <= j && j < last {
        }
    }
    false
}

/// A tiny glob matcher: supports a single leading and/or trailing `*` (e.g. `clk_*`,
/// `*scan*`, `*_reg`). Exact match otherwise.
pub fn glob_match(pat: &str, s: &str) -> (r: bool)
    ensures
        r == glob(pat@, s@),
{
    let p = chars_of(pat);
    let t = chars_of(s);
    let n = p.len();
    let lead = n > 0 && p[0] == '*';
    let trail = n > 0 && p[n - 1] == '*';
    if lead && trail {
        let (a, b) = trim_stars_range(&p, 0, n);
        assert(p@.subrange(0, n as int) =~= p@);
        contains_range(&t, &p, a, b)
    } else if lead {
        assert(p@.subrange(1, n as int) =~= p@.drop_first());
        if n - 1 > t.len() {
            false
        } else {
            matches_at(&t, &p, 1, n, t.len() - (n - 1))
        }
    } else if trail {
        assert(p@.subrange(0, n - 1) =~= p@.drop_last());
        if n - 1 > t.len() {
            false
        } else {
            matches_at(&t, &p, 0, n - 1, 0)
        }
    } else {
        assert(p@.subrange(0, n as int) =~= p@);
        if n != t.len() {
            false
        } else {
            let r = matches_at(&t, &p, 0, n, 0);
            assert(t@.subrange(0, n as int) =~= t@);
            r
        }
    }
}

// ---------------------------------------------------------------------------------------
// The job's keys
// ---------------------------------------------------------------------------------------

/// Names the result of `str::to_lowercase`: the Unicode lowercase mapping of `s`.
pub uninterp spec fn lowercase(s: Seq<char>) -> Seq<char>;

/// Names the result of formatting a string with `{:?}`: `s` in double quotes with the
/// characters that `str`'s `Debug` impl escapes escaped.
pub uninterp spec fn debug_quoted(s: Seq<char>) -> Seq<char>;

/// `c` with `A`..=`Z` lowered to `a`..=`z`; every other character as it is.
pub open spec fn ascii_lower_char(c: char) -> char {
    if 'A' <= c && c <= 'Z' {
        ((c as u32) + 32) as char
    } else {
        c
    }
}

/// Every character of `s` is ASCII (below U+0080).
pub open spec fn is_ascii_text(s: Seq<char>) -> bool {
    forall|i: int| 0 <= i < s.len() ==> (#[trigger] s[i] as u32) < 0x80
}

/// `s` with its ASCII capitals lowered, character by character.
pub open spec fn ascii_lower(s: Seq<char>) -> Seq<char> {
    s.map_values(|c: char| ascii_lower_char(c))
}

/// What lowercasing makes of `s`: on ASCII text the ASCII mapping, else Unicode's mapping
/// by name.
pub open spec fn lowered(s: Seq<char>) -> Seq<char> {
    if is_ascii_text(s) {
        ascii_lower(s)
    } else {
        lowercase(s)
    }
}

/// Calls `str::to_lowercase`; its result is, by name, `lowercase` of the argument. On ASCII
/// text Unicode's lowercase mapping is the ASCII one (`A`..=`Z` to `a`..=`z`, every other
/// ASCII character unchanged), and that much is stated; the rest of the mapping is left to
/// the name.
#[verifier::external_body]
fn to_lowercase(s: &str) -> (r: String)
    ensures
        r@ == lowercase(s@),
        is_ascii_text(s@) ==> r@ == ascii_lower(s@),
{
    s.to_lowercase()
}

/// Formats `s` with `str`'s `Debug` impl (`format!("{s:?}")`); its result is, by name,
/// `debug_quoted` of the argument.
#[verifier::external_body]
fn quote_debug(s: &str) -> (r: String)
    ensures
        r@ == debug_quoted(s@),
{
    format!("{s:?}")
}

/// The keys of a job line that the vt-swap configuration reads.
#[derive(Debug, Clone, Copy, PartialEq, Eq, Structural)]
pub enum KeyKind {
    Group,
    Objective,
    Effort,
    DontTouch,
    Other,
}

/// Which key a lowercased key names.
pub open spec fn key_kind(k: Seq<char>) -> KeyKind {
    if k == "group"@ {
        KeyKind::Group
    } else if k == "objective"@ {
        KeyKind::Objective
    } else if k == "effort"@ {
        KeyKind::Effort
    } else if k == "dont_touch"@ {
        KeyKind::DontTouch
    } else {
        KeyKind::Other
    }
}

/// The objective a lowercased `objective:` value names.
pub open spec fn objective_named(w: Seq<char>) -> Option<Objective> {
    if w == "leakage"@ {
        Some(Objective::Leakage)
    } else if w == "timing"@ {
        Some(Objective::Timing)
    } else {
        None
    }
}

/// The iteration budget a lowercased `effort:` value names.
pub open spec fn effort_budget(w: Seq<char>) -> Option<nat> {
    if w == "low"@ {
        Some(20)
    } else if w == "medium"@ {
        Some(100)
    } else if w == "high"@ {
        Some(500)
    } else {
        None
    }
}

/// Which key the lowercased key `k` names.
pub fn key_of(k: &str) -> (r: KeyKind)
    ensures
        r == key_kind(k@),
{
    if str_eq(k, "group") {
        KeyKind::Group
    } else if str_eq(k, "objective") {
        KeyKind::Objective
    } else if str_eq(k, "effort") {
        KeyKind::Effort
    } else if str_eq(k, "dont_touch") {
        KeyKind::DontTouch
    } else {
        KeyKind::Other
    }
}

/// The objective that the lowercased value `w` names, if any.
pub fn objective_of(w: &str) -> (r: Option<Objective>)
    ensures
        r == objective_named(w@),
{
    if str_eq(w, "leakage") {
        Some(Objective::Leakage)
    } else if str_eq(w, "timing") {
        Some(Objective::Timing)
    } else {
        None
    }
}

/// The iteration budget that the lowercased value `w` names, if any.
pub fn effort_of(w: &str) -> (r: Option<usize>)
    ensures
        r matches Some(n) ==> effort_budget(w@) == Some(n as nat),
        r is None ==> effort_budget(w@) is None,
{
    if str_eq(w, "low") {
        Some(20)
    } else if str_eq(w, "medium") {
        Some(100)
    } else if str_eq(w, "high") {
        Some(500)
    } else {
        None
    }
}

// ---------------------------------------------------------------------------------------
// parse_cfg
// ---------------------------------------------------------------------------------------

/// What the job text has set so far, line by line.
pub struct Settings {
    pub groups: Seq<Seq<Seq<char>>>,
    pub objective: Objective,
    pub effort_word: Seq<char>,
    pub dont_touch: Seq<Seq<char>>,
}

/// Nothing set: no groups, the leakage objective, effort `medium`, nothing untouchable.
pub open spec fn default_settings() -> Settings {
    Settings {
        groups: Seq::empty(),
        objective: Objective::Leakage,
        effort_word: "medium"@,
        dont_touch: Seq::empty(),
    }
}

/// The lines of a text: the pieces between newlines. (A carriage return before a newline is
/// whitespace, and every line is trimmed before it is read, so these give the same settings
/// as `str::lines`.)
pub open spec fn lines_of(text: Seq<char>) -> Seq<Seq<char>> {
    split_by(text, |c: char| c == '\n')
}

/// The `key: value` entry of a line: the text before the first `#`, trimmed, split at its
/// first `:`, both sides trimmed; `None` for a line with no `:` there.
pub open spec fn line_entry(line: Seq<char>) -> Option<(Seq<char>, Seq<char>)> {
    let content = trim(line.take(pos_of(line, '#')));
    let p = pos_of(content, ':');
    if p < content.len() {
        Some((trim(content.take(p)), trim(content.skip(p + 1))))
    } else {
        None
    }
}

/// The settings after an entry whose lowercased key is `key`, whose value is `v` and whose
/// lowercased value is `v_low`; `Err` carries `v_low` when an `objective:` names no
/// objective. A `group:` keeps its words when there are at least two; `effort:` keeps the
/// lowercased word for later; `dont_touch:` adds its items; any other key changes nothing.
pub open spec fn apply_entry(st: Settings, key: Seq<char>, v: Seq<char>, v_low: Seq<char>) -> Result<Settings, Seq<char>> {
    match key_kind(key) {
        KeyKind::Group => if words(v).len() >= 2 {
            Ok(
                Settings {
                    groups: st.groups.push(words(v)),
                    objective: st.objective,
                    effort_word: st.effort_word,
                    dont_touch: st.dont_touch,
                },
            )
        } else {
            Ok(st)
        },
        KeyKind::Objective => match objective_named(v_low) {
            Some(o) => Ok(
                Settings {
                    groups: st.groups,
                    objective: o,
                    effort_word: st.effort_word,
                    dont_touch: st.dont_touch,
                },
            ),
            None => Err(v_low),
        },
        KeyKind::Effort => Ok(
            Settings {
                groups: st.groups,
                objective: st.objective,
                effort_word: v_low,
                dont_touch: st.dont_touch,
            },
        ),
        KeyKind::DontTouch => Ok(
            Settings {
                groups: st.groups,
                objective: st.objective,
                effort_word: st.effort_word,
                dont_touch: st.dont_touch + items(v),
            },
        ),
        KeyKind::Other => Ok(st),
    }
}

/// The settings after one more line: its entry, with key and value lowercased, if it has
/// one.
pub open spec fn apply_line(st: Settings, line: Seq<char>) -> Result<Settings, Seq<char>> {
    match line_entry(line) {
        None => Ok(st),
        Some((k, v)) => apply_entry(st, lowered(k), v, lowered(v)),
    }
}

/// The settings after the given lines, read in order; the first bad `objective:` stops it.
pub open spec fn settings_after(lines: Seq<Seq<char>>) -> Result<Settings, Seq<char>>
    decreases lines.len(),
{
    if lines.len() == 0 {
        Ok(default_settings())
    } else {
        match settings_after(lines.drop_last()) {
            Ok(st) => apply_line(st, lines.last()),
            Err(w) => Err(w),
        }
    }
}

/// The message for an `objective:` value that names no objective.
pub open spec fn objective_error(w: Seq<char>) -> Seq<char> {
    "objective must be leakage|timing, got "@ + debug_quoted(w)
}

/// The message for an `effort:` value that names no budget.
pub open spec fn effort_error(w: Seq<char>) -> Seq<char> {
    "effort must be low|medium|high, got "@ + debug_quoted(w)
}

/// The configuration a job text gives, or the message it is refused with.
pub open spec fn cfg_of(text: Seq<char>) -> Result<CfgView, Seq<char>> {
    match settings_after(lines_of(text)) {
        Err(w) => Err(objective_error(w)),
        Ok(st) => match effort_budget(st.effort_word) {
            Some(n) => Ok(
                CfgView {
                    groups: st.groups,
                    objective: st.objective,
                    effort: n,
                    dont_touch: st.dont_touch,
                },
            ),
            None => Err(effort_error(st.effort_word)),
        },
    }
}

/// The settings a job builds up keep their shape: groups of two or more non-empty flavors,
/// non-empty `dont_touch` globs.
pub open spec fn well_shaped(st: Settings) -> bool {
    &&& forall|g: int| 0 <= g < st.groups.len() ==> (#[trigger] st.groups[g]).len() >= 2
    &&& forall|g: int, f: int|
        0 <= g < st.groups.len() && 0 <= f < st.groups[g].len() ==> flavor_shaped(
            #[trigger] st.groups[g][f],
        )
    &&& forall|d: int| 0 <= d < st.dont_touch.len() ==> (#[trigger] st.dont_touch[d]).len() > 0
}

/// A flavor name: non-empty, with no whitespace and no `#`.
pub open spec fn flavor_shaped(f: Seq<char>) -> bool {
    &&& f.len() > 0
    &&& free_of(f, |c: char| is_ws(c))
    &&& free_of(f, |c: char| c == '#')
}

/// The value of a line's entry holds no `#` (a comment starts there).
proof fn lemma_entry_free(line: Seq<char>)
    ensures
        line_entry(line) matches Some((k, v)) ==> free_of(v, |c: char| c == '#'),
{
    let h = |c: char| c == '#';
    lemma_before_free(line, '#');
    let content = trim(line.take(pos_of(line, '#')));
    lemma_trim_free(line.take(pos_of(line, '#')), h);
    let p = pos_of(content, ':');
    if p < content.len() {
        lemma_before_free(content, ':');
        lemma_take_skip_free(content, p + 1, h);
        lemma_trim_free(content.skip(p + 1), h);
    }
}

proof fn lemma_settings_shape(lines: Seq<Seq<char>>)
    ensures
        settings_after(lines) matches Ok(st) ==> well_shaped(st),
    decreases lines.len(),
{
    if lines.len() > 0 {
        lemma_settings_shape(lines.drop_last());
        if let Ok(st) = settings_after(lines.drop_last()) {
            if let Some((k, v)) = line_entry(lines.last()) {
                lemma_non_empty_pieces(split_by(v, |c: char| is_ws(c)));
                lemma_non_empty_pieces(trim_all(split_by(v, |c: char| is_item_sep(c))));
                lemma_entry_free(lines.last());
                lemma_words_free(v, |c: char| c == '#');
                let w = words(v);
                let gs = st.groups.push(w);
                assert forall|g: int, f: int|
                    0 <= g < gs.len() && 0 <= f < gs[g].len() implies flavor_shaped(
                    #[trigger] gs[g][f],
                ) by {
                    if g < st.groups.len() {
                        assert(gs[g] == st.groups[g]);
                    }
                }
                let ds = st.dont_touch + items(v);
                assert forall|d: int| 0 <= d < ds.len() implies (#[trigger] ds[d]).len() > 0 by {
                    if d < st.dont_touch.len() {
                        assert(ds[d] == st.dont_touch[d]);
                    } else {
                        assert(ds[d] == items(v)[d - st.dont_touch.len()]);
                    }
                }
            }
        }
    } else {
        assert(well_shaped(default_settings()));
    }
}

/// What every accepted job gives: groups of at least two flavors, every flavor non-empty
/// and free of whitespace and `#`, every `dont_touch` glob non-empty, and an iteration budget
/// of 20 (`low`), 100 (`medium`) or 500 (`high`).
pub proof fn lemma_cfg_shape(text: Seq<char>)
    ensures
        cfg_of(text) matches Ok(c) ==> {
            &&& c.effort == 20 || c.effort == 100 || c.effort == 500
            &&& forall|g: int| 0 <= g < c.groups.len() ==> (#[trigger] c.groups[g]).len() >= 2
            &&& forall|g: int, f: int|
                0 <= g < c.groups.len() && 0 <= f < c.groups[g].len() ==> flavor_shaped(
                #[trigger] c.groups[g][f],
            )
            &&& forall|d: int| 0 <= d < c.dont_touch.len() ==> (#[trigger] c.dont_touch[d]).len() > 0
        },
{
    lemma_settings_shape(lines_of(text));
}

/// A `.vtswap` file is a timing job plus the vt-swap keys: appending a line that this
/// configuration does not read (one with no `:` before its first `#`, or whose key is none
/// of `group`, `objective`, `effort`, `dont_touch`) leaves the configuration, or the refusal,
/// as it was.
pub proof fn lemma_foreign_line(text: Seq<char>, line: Seq<char>)
    requires
        free_of(line, |c: char| c == '\n'),
        line_entry(line) matches Some((k, v)) ==> key_kind(lowered(k)) == KeyKind::Other,
    ensures
        cfg_of(text + seq!['\n'] + line) == cfg_of(text),
{
    let sep = |c: char| c == '\n';
    lemma_split_by_append(text, '\n', line, sep);
    let lines = lines_of(text);
    assert(lines_of(text + seq!['\n'] + line) == lines.push(line));
    assert(lines.push(line).drop_last() =~= lines);
    assert(settings_after(lines.push(line)) == settings_after(lines));
}

/// Keys are read without regard to case: two lines with the same value whose keys lower
/// alike (`GROUP:` and `group:`, or any two ASCII keys that differ only in the case of their
/// letters) do the same to the settings.
pub proof fn lemma_key_case(st: Settings, l1: Seq<char>, l2: Seq<char>)
    requires
        line_entry(l1) matches Some((k1, v1)) && line_entry(l2) matches Some((k2, v2)) && v1
            == v2 && (lowered(k1) == lowered(k2) || (is_ascii_text(k1) && is_ascii_text(k2)
            && ascii_lower(k1) == ascii_lower(k2))),
    ensures
        apply_line(st, l1) == apply_line(st, l2),
{
}

/// The four keys in capitals lower to the keys themselves.
pub proof fn lemma_upper_keys()
    ensures
        key_kind(lowered("GROUP"@)) == KeyKind::Group,
        key_kind(lowered("OBJECTIVE"@)) == KeyKind::Objective,
        key_kind(lowered("EFFORT"@)) == KeyKind::Effort,
        key_kind(lowered("DONT_TOUCH"@)) == KeyKind::DontTouch,
{
    reveal_strlit("GROUP");
    reveal_strlit("OBJECTIVE");
    reveal_strlit("EFFORT");
    reveal_strlit("DONT_TOUCH");
    reveal_strlit("group");
    reveal_strlit("objective");
    reveal_strlit("effort");
    reveal_strlit("dont_touch");
    assert(lowered("GROUP"@) =~= "group"@);
    assert(lowered("OBJECTIVE"@) =~= "objective"@);
    assert(lowered("EFFORT"@) =~= "effort"@);
    assert(lowered("DONT_TOUCH"@) =~= "dont_touch"@);
}

/// What each form of pattern matches, character by character: with a `*` at both ends, the
/// names that hold the pattern's inner part (its outer `*` removed) somewhere as a run of
/// characters, so never a name shorter than that part; with a leading `*` only, the names
/// that end with the rest; with a trailing `*` only, the names that begin with the rest;
/// otherwise the pattern itself.
pub proof fn lemma_glob_forms(pat: Seq<char>, s: Seq<char>)
    ensures
        pat.len() > 0 && pat[0] == '*' && pat.last() == '*' ==> (glob(pat, s) <==> exists|i: int|
            0 <= i && i + trim_stars(pat).len() <= s.len() && #[trigger] s.subrange(
                i,
                i + trim_stars(pat).len(),
            ) == trim_stars(pat)),
        pat.len() > 0 && pat[0] == '*' && pat.last() == '*' && glob(pat, s) ==> trim_stars(
            pat,
        ).len() <= s.len(),
        pat.len() > 0 && pat[0] == '*' && pat.last() != '*' ==> (glob(pat, s) <==> (pat.len() - 1
            <= s.len() && forall|i: int|
            0 <= i < pat.len() - 1 ==> s[s.len() - (pat.len() - 1) + i] == #[trigger] pat[i + 1])),
        pat.len() > 0 && pat[0] != '*' && pat.last() == '*' ==> (glob(pat, s) <==> (pat.len() - 1
            <= s.len() && forall|i: int| 0 <= i < pat.len() - 1 ==> s[i] == #[trigger] pat[i])),
        (pat.len() == 0 || (pat[0] != '*' && pat.last() != '*')) ==> (glob(pat, s) <==> s == pat),
{
    let lead = pat.len() > 0 && pat[0] == '*';
    let trail = pat.len() > 0 && pat.last() == '*';
    if lead && trail {
        let t = trim_stars(pat);
        if glob(pat, s) {
            let i = choose|i: int| occurs_at(s, t, i);
            assert(s.subrange(i, i + t.len()) == t);
        }
        assert((exists|i: int|
            0 <= i && i + t.len() <= s.len() && #[trigger] s.subrange(i, i + t.len()) == t)
            ==> has_infix(s, t)) by {
            if exists|i: int| 0 <= i && i + t.len() <= s.len() && #[trigger] s.subrange(i, i + t.len()) == t {
                let i = choose|i: int|
                    0 <= i && i + t.len() <= s.len() && #[trigger] s.subrange(i, i + t.len()) == t;
                assert(occurs_at(s, t, i));
            }
        }
    } else if lead {
        let q = pat.drop_first();
        if pat.len() - 1 <= s.len() {
            let k = s.len() - q.len();
            if forall|i: int| 0 <= i < pat.len() - 1 ==> s[s.len() - (pat.len() - 1) + i] == #[trigger] pat[i + 1] {
                assert(s.skip(k) =~= q);
            }
            if has_suffix(s, q) {
                assert forall|i: int| 0 <= i < pat.len() - 1 implies s[s.len() - (pat.len() - 1) + i]
                    == #[trigger] pat[i + 1] by {
                    assert(s.skip(k)[i] == q[i]);
                }
            }
        }
    } else if trail {
        let q = pat.drop_last();
        if pat.len() - 1 <= s.len() {
            if forall|i: int| 0 <= i < pat.len() - 1 ==> s[i] == #[trigger] pat[i] {
                assert(s.take(q.len() as int) =~= q);
            }
            if has_prefix(s, q) {
                assert forall|i: int| 0 <= i < pat.len() - 1 implies s[i] == #[trigger] pat[i] by {
                    assert(s.take(q.len() as int)[i] == q[i]);
                }
            }
        }
    }
}

/// The `dont_touch:` globs are the items of the value as written: its key is read without
/// regard to case, but its value is not lowered, so each glob keeps the case it was written
/// in; nothing else changes.
pub proof fn lemma_dont_touch_line(st: Settings, line: Seq<char>)
    requires
        line_entry(line) matches Some((k, v)) && key_kind(lowered(k)) == KeyKind::DontTouch,
    ensures
        apply_line(st, line) == Ok::<Settings, Seq<char>>(
            Settings {
                groups: st.groups,
                objective: st.objective,
                effort_word: st.effort_word,
                dont_touch: st.dont_touch + items(line_entry(line).unwrap().1),
            },
        ),
{
}

/// The line `dont_touch: ` and `v` is one entry: key `dont_touch`, value `v`.
proof fn lemma_dont_touch_entry(v: Seq<char>)
    requires
        v.len() > 0,
        !is_ws(v[0]),
        !is_ws(v.last()),
        free_of(v, |c: char| c == '#'),
    ensures
        line_entry("dont_touch: "@ + v) == Some(("dont_touch"@, v)),
{
    reveal_strlit("dont_touch: ");
    reveal_strlit("dont_touch");
    let p = "dont_touch: "@;
    let t = p + v;
    let ws = |c: char| is_ws(c);
    // no `#`: the whole line counts
    assert forall|j: int| 0 <= j < t.len() implies t[j] != '#' by {
        if j >= p.len() {
            assert(t[j] == v[j - p.len()]);
            assert(!((|c: char| c == '#')(v[j - p.len()])));
        }
    }
    lemma_pos_of(t, '#', t.len() as int);
    assert(t.take(t.len() as int) =~= t);
    // nothing to trim at the ends of the line
    assert(trim(t) == t) by {
        lemma_strip_lead(t, ws, 0);
        assert(t.skip(0) =~= t);
        assert(t[t.len() - 1] == v[v.len() - 1]);
        lemma_strip_trail(t, ws, t.len() as int);
        assert(t.take(t.len() as int) =~= t);
    }
    // the key ends at the first `:`
    lemma_pos_of(t, ':', 10);
    let key = t.take(10);
    assert(key =~= "dont_touch"@);
    assert(trim(key) == key) by {
        lemma_strip_lead(key, ws, 0);
        assert(key.skip(0) =~= key);
        lemma_strip_trail(key, ws, 10);
        assert(key.take(10) =~= key);
    }
    // the value is `v`, after the one space
    let rest = t.skip(11);
    assert(rest =~= seq![' '] + v);
    assert(trim(rest) == v) by {
        assert(rest[0] == ' ');
        assert(rest[1] == v[0]);
        lemma_strip_lead(rest, ws, 1);
        assert(rest.skip(1) =~= v);
        lemma_strip_trail(v, ws, v.len() as int);
        assert(v.take(v.len() as int) =~= v);
    }
}

/// A job whose only line is `dont_touch: ` and a value `v` (no line break, no `#`, no
/// whitespace at its ends) is accepted, and its globs are exactly the items of `v` as
/// written, in their case; it has no groups and keeps the default objective and effort.
pub proof fn lemma_dont_touch_job(v: Seq<char>)
    requires
        v.len() > 0,
        !is_ws(v[0]),
        !is_ws(v.last()),
        free_of(v, |c: char| c == '\n'),
        free_of(v, |c: char| c == '#'),
    ensures
        cfg_of("dont_touch: "@ + v) == Ok::<CfgView, Seq<char>>(
            CfgView { groups: Seq::empty(), objective: Objective::Leakage, effort: 100, dont_touch: items(v) },
        ),
{
    reveal_strlit("dont_touch: ");
    let t = "dont_touch: "@ + v;
    assert(free_of(t, |c: char| c == '\n')) by {
        assert forall|i: int| 0 <= i < t.len() implies !((|c: char| c == '\n')(#[trigger] t[i])) by {
            if i >= 12 {
                assert(t[i] == v[i - 12]);
            }
        }
    }
    lemma_split_by_single(t, |c: char| c == '\n');
    assert(lines_of(t) == seq![t]);
    assert(seq![t].drop_last() =~= Seq::<Seq<char>>::empty());
    lemma_dont_touch_entry(v);
    assert(key_kind(lowered("dont_touch"@)) == KeyKind::DontTouch) by {
        reveal_strlit("dont_touch");
        reveal_strlit("group");
        reveal_strlit("objective");
        reveal_strlit("effort");
        assert(lowered("dont_touch"@) =~= "dont_touch"@);
    }
    assert(Seq::<Seq<char>>::empty() + items(v) =~= items(v));
    let st = default_settings();
    let lv = lowered(v);
    let done = Settings {
        groups: Seq::empty(),
        objective: Objective::Leakage,
        effort_word: "medium"@,
        dont_touch: items(v),
    };
    assert(apply_line(st, t) == apply_entry(st, lowered("dont_touch"@), v, lv));
    assert(apply_entry(st, lowered("dont_touch"@), v, lv) == Ok::<Settings, Seq<char>>(done));
    assert(settings_after(Seq::<Seq<char>>::empty()) == Ok::<Settings, Seq<char>>(st));
    assert(settings_after(seq![t]) == apply_line(st, t));
    assert(effort_budget("medium"@) == Some(100nat)) by {
        reveal_strlit("medium");
        reveal_strlit("low");
        assert("medium"@.len() != "low"@.len());
    }
}

/// The settings gathered so far from a job text.
pub struct Pending {
    pub groups: Vec<Vec<String>>,
    pub objective: Objective,
    /// The lowercased `effort:` word in force.
    pub effort_word: String,
    pub dont_touch: Vec<String>,
}

impl View for Pending {
    type V = Settings;

    open spec fn view(&self) -> Settings {
        Settings {
            groups: groups_view(self.groups@),
            objective: self.objective,
            effort_word: self.effort_word@,
            dont_touch: strs(self.dont_touch@),
        }
    }
}

impl Pending {
    /// Nothing set yet.
    pub fn new() -> (p: Pending)
        ensures
            p@ == default_settings(),
    {
        let p = Pending {
            groups: Vec::new(),
            objective: Objective::Leakage,
            effort_word: String::from_str("medium"),
            dont_touch: Vec::new(),
        };
        assert(groups_view(p.groups@) =~= Seq::<Seq<Seq<char>>>::empty());
        assert(strs(p.dont_touch@) =~= Seq::<Seq<char>>::empty());
        p
    }
}

/// Reads an entry into `p`, given its lowercased key `key`, its value `value` and its
/// lowercased value `value_low`, as [`apply_entry`] states; `Err` holds `value_low` when an
/// `objective:` names no objective.
pub fn read_entry(p: &mut Pending, key: &str, value: &str, value_low: String) -> (r: Result<(), String>)
    ensures
        match apply_entry(old(p)@, key@, value@, value_low@) {
            Ok(st) => r is Ok && final(p)@ == st,
            Err(w) => r matches Err(m) && m@ == w && final(p)@ == old(p)@,
        },
{
    match key_of(key) {
        KeyKind::Group => {
            let cs = chars_of(value);
            let ws = split_words(value, &cs, 0, cs.len());
            assert(cs@.subrange(0, cs.len() as int) =~= value@);
            if ws.len() >= 2 {
                proof {
                    assert(groups_view(p.groups@.push(ws)) =~= groups_view(p.groups@).push(
                        strs(ws@),
                    ));
                }
                p.groups.push(ws);
            }
            Ok(())
        },
        KeyKind::Objective => {
            match objective_of(value_low.as_str()) {
                Some(o) => {
                    p.objective = o;
                    Ok(())
                },
                None => Err(value_low),
            }
        },
        KeyKind::Effort => {
            p.effort_word = value_low;
            Ok(())
        },
        KeyKind::DontTouch => {
            let cs = chars_of(value);
            let mut its = split_items(value, &cs, 0, cs.len());
            assert(cs@.subrange(0, cs.len() as int) =~= value@);
            proof {
                assert(strs(p.dont_touch@ + its@) =~= strs(p.dont_touch@) + strs(its@));
            }
            p.dont_touch.append(&mut its);
            Ok(())
        },
        KeyKind::Other => Ok(()),
    }
}

/// Reads the line `text[lo..hi]` into `p`; `Err` holds the lowercased value of a bad
/// `objective:` line.
fn read_line(text: &str, cs: &Vec<char>, lo: usize, hi: usize, p: &mut Pending) -> (r: Result<
    (),
    String,
>)
    requires
        cs@ == text@,
        lo <= hi <= cs.len(),
    ensures
        match apply_line(old(p)@, cs@.subrange(lo as int, hi as int)) {
            Ok(st) => r is Ok && final(p)@ == st,
            Err(w) => r matches Err(m) && m@ == w,
        },
{
    let ghost line = cs@.subrange(lo as int, hi as int);
    let h = find_char(cs, lo, hi, '#');
    assert(line.take(h - lo) =~= cs@.subrange(lo as int, h as int));
    let (a, b) = trim_range(cs, lo, h);
    let c = find_char(cs, a, b, ':');
    if c == b {
        return Ok(());
    }
    let ghost content = cs@.subrange(a as int, b as int);
    assert(content.take(c - a) =~= cs@.subrange(a as int, c as int));
    assert(content.skip(c - a + 1) =~= cs@.subrange(c + 1, b as int));
    let (ka, kb) = trim_range(cs, a, c);
    let (va, vb) = trim_range(cs, c + 1, b);
    let key = to_lowercase(text.substring_char(ka, kb));
    let value = text.substring_char(va, vb);
    let value_low = to_lowercase(value);
    read_entry(p, key.as_str(), value, value_low)
}

/// Parse the vt-swap-only keys out of the job text.
pub fn parse_cfg(text: &str) -> (r: Result<VtCfg, String>)
    ensures
        match cfg_of(text@) {
            Ok(c) => r matches Ok(cfg) && cfg@ == c,
            Err(m) => r matches Err(e) && e@ == m,
        },
{
    let cs = chars_of(text);
    let n = cs.len();
    let mut g = Pending::new();
    let ghost sep = |c: char| c == '\n';
    let ghost mut done: Seq<Seq<char>> = Seq::empty();
    assert(cs@.take(0) =~= Seq::<char>::empty());
    assert(cs@.subrange(0, 0) =~= Seq::<char>::empty());
    assert(split_by(cs@.take(0), sep) =~= done.push(cs@.subrange(0, 0)));
    // The lowercased value of the first refused `objective:` line; the lines after it are
    // not read.
    let mut refused: Option<String> = None;
    let mut st: usize = 0;
    let mut i: usize = 0;
    while i < n
        invariant
            cs@ == text@,
            n == cs.len(),
            st <= i <= n,
            sep == (|c: char| c == '\n'),
            split_by(cs@.take(i as int), sep) == done.push(cs@.subrange(st as int, i as int)),
            settings_after(done) == (match refused {
                Some(w) => Err::<Settings, Seq<char>>(w@),
                None => Ok(g@),
            }),
        decreases n - i,
    {
        proof {
            lemma_split_by_step(cs@, sep, i as int);
        }
        if cs[i] == '\n' {
            let ghost line = cs@.subrange(st as int, i as int);
            proof {
                assert(done.push(line).drop_last() =~= done);
            }
            if refused.is_none() {
                if let Err(w) = read_line(text, &cs, st, i, &mut g) {
                    refused = Some(w);
                }
            }
            proof {
                done = done.push(line);
            }
            st = i + 1;
            assert(cs@.subrange(st as int, st as int) =~= Seq::<char>::empty());
        } else {
            assert(cs@.subrange(st as int, i + 1) =~= cs@.subrange(st as int, i as int).push(
                cs@[i as int],
            ));
        }
        i = i + 1;
    }
    assert(cs@.take(n as int) =~= cs@);
    let ghost line = cs@.subrange(st as int, n as int);
    proof {
        assert(done.push(line).drop_last() =~= done);
    }
    if refused.is_none() {
        if let Err(w) = read_line(text, &cs, st, n, &mut g) {
            refused = Some(w);
        }
    }
    if let Some(w) = refused {
        return Err(objective_message(w.as_str()));
    }
    match effort_of(g.effort_word.as_str()) {
        Some(effort) => Ok(
            VtCfg { groups: g.groups, objective: g.objective, effort, dont_touch: g.dont_touch },
        ),
        None => Err(effort_message(g.effort_word.as_str())),
    }
}

/// The refusal of an `objective:` value.
fn objective_message(w: &str) -> (m: String)
    ensures
        m@ == objective_error(w@),
{
    String::from_str("objective must be leakage|timing, got ").concat(quote_debug(w).as_str())
}

/// The refusal of an `effort:` value.
fn effort_message(w: &str) -> (m: String)
    ensures
        m@ == effort_error(w@),
{
    String::from_str("effort must be low|medium|high, got ").concat(quote_debug(w).as_str())
}

} // verus!
