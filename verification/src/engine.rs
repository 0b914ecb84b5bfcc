//! The Vt-swap decisions. The swap loop alternates timer work (resize a cell, re-time the
//! design, read setup/hold slack and leakage) with decisions; the timer's figures are
//! floating point and live outside this library, so the loop is a state machine here
//! ([`Swapper`]): the caller reports what the timer says, and the machine says what to do next.
//!
//!   - **timing**: rank the critical path, try a *faster* (lower-Vt) flavor on its instances,
//!     keep the best non-hold-breaking improvement, until setup is met or no move helps.
//!   - **leakage**: on a design that meets setup, take every instance in turn to the
//!     highest-Vt (lowest-leakage) flavor that still meets timing: step to the *next slower*
//!     flavor, keep it if timing stays met and hold is not worsened, and step again from there
//!     until a step is refused or the slowest flavor is reached.
use vstd::prelude::*;

use crate::job::{glob, glob_match, groups_view, Objective, VtCfg};
use crate::text::{chars_of, find_char, pos_of, string_of, strs};

verus! {

/// A swap: `(instance, old cell, new cell)`.
pub type Swap = (String, String, String);

/// The characters of a swap: `(instance, old cell, new cell)`.
pub type SwapView = (Seq<char>, Seq<char>, Seq<char>);

/// An instance of the netlist: `(instance name, cell)`.
pub type Inst = (String, String);

/// The characters of a swap.
pub open spec fn swap_view(s: Swap) -> SwapView {
    (s.0@, s.1@, s.2@)
}

/// The characters of a sequence of swaps.
pub open spec fn swaps_view(v: Seq<Swap>) -> Seq<SwapView> {
    v.map_values(|s: Swap| swap_view(s))
}

/// The characters of a sequence of instances.
pub open spec fn insts_view(v: Seq<Inst>) -> Seq<(Seq<char>, Seq<char>)> {
    v.map_values(|i: Inst| (i.0@, i.1@))
}

/// The last position of `c` in the group `g`.
pub open spec fn last_index_of(g: Seq<Seq<char>>, c: Seq<char>) -> Option<int>
    decreases g.len(),
{
    if g.len() == 0 {
        None
    } else if g.last() == c {
        Some(g.len() - 1)
    } else {
        last_index_of(g.drop_last(), c)
    }
}

/// The `(group, position)` of cell `c`: its last occurrence in the last group that holds it
/// (a cell listed twice takes the place that was declared last).
pub open spec fn flavor_pos(gs: Seq<Seq<Seq<char>>>, c: Seq<char>) -> Option<(int, int)>
    decreases gs.len(),
{
    if gs.len() == 0 {
        None
    } else {
        match last_index_of(gs.last(), c) {
            Some(pi) => Some(((gs.len() - 1) as int, pi)),
            None => flavor_pos(gs.drop_last(), c),
        }
    }
}

/// The next faster (lower-Vt) flavor of cell `c`: the previous entry of its group.
pub open spec fn faster(gs: Seq<Seq<Seq<char>>>, c: Seq<char>) -> Option<Seq<char>> {
    match flavor_pos(gs, c) {
        Some((gi, pi)) => if pi > 0 {
            Some(gs[gi][pi - 1])
        } else {
            None
        },
        None => None,
    }
}

/// The next slower (higher-Vt) flavor of cell `c`: the next entry of its group.
pub open spec fn slower(gs: Seq<Seq<Seq<char>>>, c: Seq<char>) -> Option<Seq<char>> {
    match flavor_pos(gs, c) {
        Some((gi, pi)) => if pi + 1 < gs[gi].len() {
            Some(gs[gi][pi + 1])
        } else {
            None
        },
        None => None,
    }
}

/// Instance `inst` matches one of the `dont_touch` globs.
pub open spec fn untouchable(pats: Seq<Seq<char>>, inst: Seq<char>) -> bool {
    exists|k: int| 0 <= k < pats.len() && glob(pats[k], inst)
}

/// The cell of the first instance named `name`.
pub open spec fn cell_in(insts: Seq<(Seq<char>, Seq<char>)>, name: Seq<char>) -> Option<Seq<char>>
    decreases insts.len(),
{
    if insts.len() == 0 {
        None
    } else {
        match cell_in(insts.drop_last(), name) {
            Some(c) => Some(c),
            None => if insts.last().0 == name {
                Some(insts.last().1)
            } else {
                None
            },
        }
    }
}

/// The `(group, position)` of `cell` among the configured groups, as [`flavor_pos`] states.
pub fn flavor_position(groups: &Vec<Vec<String>>, cell: &String) -> (r: Option<(usize, usize)>)
    ensures
        r matches Some((gi, pi)) ==> flavor_pos(groups_view(groups@), cell@) == Some(
            (gi as int, pi as int),
        ),
        r is None ==> flavor_pos(groups_view(groups@), cell@) is None,
        r matches Some((gi, pi)) ==> gi < groups.len() && pi < groups@[gi as int].len(),
{
    let ghost gs = groups_view(groups@);
    let mut gi = groups.len();
    assert(gs.take(gi as int) =~= gs);
    while gi > 0
        invariant
            gi <= groups.len(),
            gs == groups_view(groups@),
            flavor_pos(gs, cell@) == flavor_pos(gs.take(gi as int), cell@),
        decreases gi,
    {
        let g = &groups[gi - 1];
        let ghost gv = gs[gi - 1];
        assert(gv == strs(g@));
        let mut pi = g.len();
        assert(gv.take(pi as int) =~= gv);
        while pi > 0
            invariant
                0 < gi <= groups.len(),
                gs == groups_view(groups@),
                flavor_pos(gs, cell@) == flavor_pos(gs.take(gi as int), cell@),
                pi <= g.len(),
                g == groups@[gi - 1],
                gv == gs[gi - 1],
                gv == strs(g@),
                last_index_of(gv, cell@) == last_index_of(gv.take(pi as int), cell@),
            decreases pi,
        {
            if g[pi - 1] == *cell {
                proof {
                    assert(gv.take(pi as int).last() == cell@);
                    assert(gs.take(gi as int).last() == gv);
                    assert(gs.take(gi as int).drop_last() =~= gs.take(gi - 1));
                    assert(gv.take(pi as int).len() == pi);
                }
                return Some((gi - 1, pi - 1));
            }
            proof {
                assert(gv.take(pi as int).drop_last() =~= gv.take(pi - 1));
            }
            pi = pi - 1;
        }
        proof {
            assert(gv.take(0) =~= Seq::<Seq<char>>::empty());
            assert(gs.take(gi as int).last() == gv);
            assert(gs.take(gi as int).drop_last() =~= gs.take(gi - 1));
        }
        gi = gi - 1;
    }
    assert(gs.take(0) =~= Seq::<Seq<Seq<char>>>::empty());
    None
}

/// Whether `inst` matches one of the `dont_touch` globs.
pub fn is_untouchable(pats: &Vec<String>, inst: &str) -> (r: bool)
    ensures
        r == untouchable(strs(pats@), inst@),
{
    let ghost ps = strs(pats@);
    let mut k: usize = 0;
    while k < pats.len()
        invariant
            k <= pats.len(),
            ps == strs(pats@),
            forall|j: int| 0 <= j < k ==> !glob(#[trigger] ps[j], inst@),
        decreases pats.len() - k,
    {
        if glob_match(pats[k].as_str(), inst) {
            assert(glob(ps[k as int], inst@));
            return true;
        }
        k = k + 1;
    }
    false
}

/// The cell of the first instance named `name`, as [`cell_in`] states.
pub fn cell_of(insts: &Vec<Inst>, name: &String) -> (r: Option<String>)
    ensures
        match cell_in(insts_view(insts@), name@) {
            Some(c) => r matches Some(s) && s@ == c,
            None => r is None,
        },
{
    let ghost iv = insts_view(insts@);
    let mut k: usize = 0;
    assert(iv.take(0) =~= Seq::<(Seq<char>, Seq<char>)>::empty());
    while k < insts.len()
        invariant
            k <= insts.len(),
            iv == insts_view(insts@),
            cell_in(iv.take(k as int), name@) is None,
        decreases insts.len() - k,
    {
        assert(iv.take(k + 1).drop_last() =~= iv.take(k as int));
        if insts[k].0 == *name {
            proof {
                lemma_cell_in_prefix(iv, name@, k + 1);
            }
            return Some(insts[k].1.clone());
        }
        k = k + 1;
    }
    assert(iv.take(insts.len() as int) =~= iv);
    None
}

/// Once a prefix names the instance, the whole list gives the same cell.
proof fn lemma_cell_in_prefix(iv: Seq<(Seq<char>, Seq<char>)>, name: Seq<char>, k: int)
    requires
        0 <= k <= iv.len(),
        cell_in(iv.take(k), name) is Some,
    ensures
        cell_in(iv, name) == cell_in(iv.take(k), name),
    decreases iv.len() - k,
{
    if k < iv.len() {
        assert(iv.take(k + 1).drop_last() =~= iv.take(k));
        lemma_cell_in_prefix(iv, name, k + 1);
    } else {
        assert(iv.take(k) =~= iv);
    }
}

// ---------------------------------------------------------------------------------------
// Candidate moves
// ---------------------------------------------------------------------------------------

/// The instance a worst-path node label names: the text before its first `/`
/// (`inst/PIN`); `None` for a label without a `/` (a primary port).
pub open spec fn label_inst(label: Seq<char>) -> Option<Seq<char>> {
    if pos_of(label, '/') < label.len() {
        Some(label.take(pos_of(label, '/')))
    } else {
        None
    }
}

/// One of `labels` names instance `x`.
pub open spec fn named_in(labels: Seq<Seq<char>>, x: Seq<char>) -> bool {
    exists|j: int| 0 <= j < labels.len() && label_inst(labels[j]) == Some(x)
}

/// The faster-flavor move for instance `x`, if it is touchable, present, and has a faster
/// flavor.
pub open spec fn speedup_for(cfg: crate::job::CfgView, insts: Seq<(Seq<char>, Seq<char>)>, x: Seq<char>) -> Option<SwapView> {
    if untouchable(cfg.dont_touch, x) {
        None
    } else {
        match cell_in(insts, x) {
            None => None,
            Some(cur) => match faster(cfg.groups, cur) {
                Some(f) => Some((x, cur, f)),
                None => None,
            },
        }
    }
}

/// The timing pass's candidates for a worst path: one faster-flavor move per instance on
/// the path, in the order the instances first appear on it.
pub open spec fn speedups(cfg: crate::job::CfgView, insts: Seq<(Seq<char>, Seq<char>)>, labels: Seq<Seq<char>>) -> Seq<SwapView>
    decreases labels.len(),
{
    if labels.len() == 0 {
        Seq::empty()
    } else {
        let prev = speedups(cfg, insts, labels.drop_last());
        match label_inst(labels.last()) {
            Some(x) => if named_in(labels.drop_last(), x) {
                prev
            } else {
                match speedup_for(cfg, insts, x) {
                    Some(m) => prev.push(m),
                    None => prev,
                }
            },
            None => prev,
        }
    }
}

/// The slower-flavor move for an instance `(name, cell)`, if it is touchable and has a
/// slower flavor.
pub open spec fn slowdown_for(cfg: crate::job::CfgView, inst: (Seq<char>, Seq<char>)) -> Option<SwapView> {
    if untouchable(cfg.dont_touch, inst.0) {
        None
    } else {
        match slower(cfg.groups, inst.1) {
            Some(s) => Some((inst.0, inst.1, s)),
            None => None,
        }
    }
}

/// The first index at or after `from` whose instance has a slower-flavor move.
pub open spec fn next_slowdown(cfg: crate::job::CfgView, insts: Seq<(Seq<char>, Seq<char>)>, from: int) -> Option<int>
    decreases insts.len() - from,
{
    if from < 0 || from >= insts.len() {
        None
    } else if slowdown_for(cfg, insts[from]) is Some {
        Some(from)
    } else {
        next_slowdown(cfg, insts, from + 1)
    }
}

/// The instance a worst-path label names, as [`label_inst`] states.
pub fn label_instance(label: &String) -> (r: Option<String>)
    ensures
        match label_inst(label@) {
            Some(x) => r matches Some(s) && s@ == x,
            None => r is None,
        },
{
    let cs = chars_of(label.as_str());
    let p = find_char(&cs, 0, cs.len(), '/');
    assert(cs@.subrange(0, cs.len() as int) =~= cs@);
    if p < cs.len() {
        let r = string_of(label.as_str(), 0, p);
        assert(cs@.take(p as int) =~= cs@.subrange(0, p as int));
        Some(r)
    } else {
        None
    }
}

fn clone_swap(s: &Swap) -> (r: Swap)
    ensures
        swap_view(r) == swap_view(*s),
{
    (s.0.clone(), s.1.clone(), s.2.clone())
}

/// The faster-flavor move for instance `x`, as [`speedup_for`] states.
pub fn speedup_of(cfg: &VtCfg, insts: &Vec<Inst>, x: &String) -> (r: Option<Swap>)
    ensures
        match speedup_for(cfg@, insts_view(insts@), x@) {
            Some(m) => r matches Some(s) && swap_view(s) == m,
            None => r is None,
        },
{
    if is_untouchable(&cfg.dont_touch, x.as_str()) {
        return None;
    }
    match cell_of(insts, x) {
        None => None,
        Some(cur) => match flavor_position(&cfg.groups, &cur) {
            Some((gi, pi)) => {
                if pi > 0 {
                    let f = cfg.groups[gi][pi - 1].clone();
                    assert(cfg@.groups[gi as int] == strs(cfg.groups@[gi as int]@));
                    assert(cfg@.groups[gi as int][pi - 1] == f@);
                    Some((x.clone(), cur, f))
                } else {
                    None
                }
            },
            None => None,
        },
    }
}

/// The slower-flavor move for an instance, as [`slowdown_for`] states.
pub fn slowdown_of(cfg: &VtCfg, inst: &Inst) -> (r: Option<Swap>)
    ensures
        match slowdown_for(cfg@, (inst.0@, inst.1@)) {
            Some(m) => r matches Some(s) && swap_view(s) == m,
            None => r is None,
        },
{
    if is_untouchable(&cfg.dont_touch, inst.0.as_str()) {
        return None;
    }
    match flavor_position(&cfg.groups, &inst.1) {
        Some((gi, pi)) => {
            assert(cfg@.groups[gi as int] == strs(cfg.groups@[gi as int]@));
            if pi + 1 < cfg.groups[gi].len() {
                let s = cfg.groups[gi][pi + 1].clone();
                assert(cfg@.groups[gi as int][pi + 1] == s@);
                Some((inst.0.clone(), inst.1.clone(), s))
            } else {
                None
            }
        },
        None => None,
    }
}

/// Whether `v` holds a string equal to `x`.
fn holds_string(v: &Vec<String>, x: &String) -> (b: bool)
    ensures
        b == (exists|k: int| 0 <= k < v.len() && (#[trigger] v@[k])@ == x@),
{
    let mut k: usize = 0;
    while k < v.len()
        invariant
            k <= v.len(),
            forall|j: int| 0 <= j < k ==> (#[trigger] v@[j])@ != x@,
        decreases v.len() - k,
    {
        if v[k] == *x {
            assert(v@[k as int]@ == x@);
            return true;
        }
        k = k + 1;
    }
    false
}

/// The timing pass's candidate moves for a worst path given by its node labels, as
/// [`speedups`] states.
pub fn timing_candidates(cfg: &VtCfg, insts: &Vec<Inst>, labels: &Vec<String>) -> (r: Vec<Swap>)
    ensures
        swaps_view(r@) == speedups(cfg@, insts_view(insts@), strs(labels@)),
{
    let ghost iv = insts_view(insts@);
    let ghost ls = strs(labels@);
    let mut r: Vec<Swap> = Vec::new();
    let mut seen: Vec<String> = Vec::new();
    let mut i: usize = 0;
    assert(ls.take(0) =~= Seq::<Seq<char>>::empty());
    assert(swaps_view(r@) =~= Seq::<SwapView>::empty());
    while i < labels.len()
        invariant
            i <= labels.len(),
            iv == insts_view(insts@),
            ls == strs(labels@),
            swaps_view(r@) == speedups(cfg@, iv, ls.take(i as int)),
            forall|x: Seq<char>|
                (exists|k: int| 0 <= k < seen.len() && (#[trigger] seen@[k])@ == x) <==> named_in(
                    ls.take(i as int),
                    x,
                ),
        decreases labels.len() - i,
    {
        let ghost prefix = ls.take(i as int);
        let ghost next = ls.take(i + 1);
        assert(next.drop_last() =~= prefix);
        assert(next.last() == labels@[i as int]@);
        assert forall|x: Seq<char>| named_in(next, x) <==> (named_in(prefix, x) || label_inst(
            ls[i as int],
        ) == Some(x)) by {
            if named_in(next, x) {
                let j = choose|j: int| 0 <= j < next.len() && label_inst(next[j]) == Some(x);
                if j < i {
                    assert(prefix[j] == next[j]);
                }
            }
            if named_in(prefix, x) {
                let j = choose|j: int| 0 <= j < prefix.len() && label_inst(prefix[j]) == Some(x);
                assert(next[j] == prefix[j]);
            }
            if label_inst(ls[i as int]) == Some(x) {
                assert(next[i as int] == ls[i as int]);
            }
        }
        match label_instance(&labels[i]) {
            None => {},
            Some(x) => {
                if !holds_string(&seen, &x) {
                    match speedup_of(cfg, insts, &x) {
                        Some(m) => {
                            proof {
                                assert(swaps_view(r@.push(m)) =~= swaps_view(r@).push(
                                    swap_view(m),
                                ));
                            }
                            r.push(m);
                        },
                        None => {},
                    }
                    let ghost old_seen = seen@;
                    seen.push(x);
                    proof {
                        assert forall|y: Seq<char>|
                            (exists|k: int| 0 <= k < seen.len() && (#[trigger] seen@[k])@ == y)
                                <==> named_in(next, y) by {
                            if exists|k: int| 0 <= k < seen.len() && (#[trigger] seen@[k])@ == y {
                                let k = choose|k: int| 0 <= k < seen.len() && (#[trigger] seen@[k])@ == y;
                                if k < old_seen.len() {
                                    assert(old_seen[k] == seen@[k]);
                                }
                            }
                            if named_in(prefix, y) {
                                let k = choose|k: int| 0 <= k < old_seen.len() && (#[trigger] old_seen[k])@ == y;
                                assert(seen@[k] == old_seen[k]);
                            }
                            if label_inst(ls[i as int]) == Some(y) {
                                assert(seen@[seen.len() - 1]@ == y);
                            }
                        }
                    }
                }
            },
        }
        i = i + 1;
    }
    assert(ls.take(labels.len() as int) =~= ls);
    r
}

/// Past instances without a slower-flavor move do not change where the next one is.
proof fn lemma_next_slowdown_skip(cfg: crate::job::CfgView, iv: Seq<(Seq<char>, Seq<char>)>, from: int, k: int)
    requires
        0 <= from <= k <= iv.len(),
        forall|j: int| from <= j < k ==> slowdown_for(cfg, #[trigger] iv[j]) is None,
    ensures
        next_slowdown(cfg, iv, from) == next_slowdown(cfg, iv, k),
    decreases k - from,
{
    if from < k {
        lemma_next_slowdown_skip(cfg, iv, from + 1, k);
    }
}

/// The first instance at or after `from` with a slower-flavor move, and that move, as
/// [`next_slowdown`] and [`slowdown_for`] state.
pub fn next_slowdown_from(cfg: &VtCfg, insts: &Vec<Inst>, from: usize) -> (r: Option<(usize, Swap)>)
    ensures
        match next_slowdown(cfg@, insts_view(insts@), from as int) {
            Some(j) => r matches Some((k, s)) && k == j && slowdown_for(
                cfg@,
                insts_view(insts@)[j],
            ) == Some(swap_view(s)),
            None => r is None,
        },
        r matches Some((k, s)) ==> k < insts.len(),
{
    let ghost iv = insts_view(insts@);
    if from >= insts.len() {
        return None;
    }
    let mut k = from;
    while k < insts.len()
        invariant
            from <= k <= insts.len(),
            iv == insts_view(insts@),
            forall|j: int| from <= j < k ==> slowdown_for(cfg@, #[trigger] iv[j]) is None,
        decreases insts.len() - k,
    {
        assert(iv[k as int] == (insts@[k as int].0@, insts@[k as int].1@));
        match slowdown_of(cfg, &insts[k]) {
            Some(s) => {
                proof {
                    lemma_next_slowdown_skip(cfg@, iv, from as int, k as int);
                }
                return Some((k, s));
            },
            None => {},
        }
        k = k + 1;
    }
    proof {
        lemma_next_slowdown_skip(cfg@, iv, from as int, k as int);
    }
    None
}

// ---------------------------------------------------------------------------------------
// The swap loop
// ---------------------------------------------------------------------------------------

/// Where the swap loop stands.
pub enum Phase {
    /// Timing pass, `moves` faster-flavor moves committed; waiting for an observation.
    Timing { moves: usize },
    /// Timing pass; waiting for the scores of the candidate moves `cands`.
    Scoring { moves: usize, cands: Vec<Swap> },
    /// Waiting for an observation that decides whether the leakage pass runs.
    LeakStart,
    /// Leakage pass over `insts` (the instances as they stood when it began); waiting for
    /// the outcome of trying `swap`, a move of the instance `insts[at]`.
    Trying { insts: Vec<Inst>, at: usize, swap: Swap },
    /// Finished.
    Done,
}

/// What the caller does next.
pub enum Action {
    /// Report the timer's state ([`Swapper::observe`]).
    Observe,
    /// Try each move on a checkpoint of the timer, restore it, and report which move to keep
    /// ([`Swapper::scored`]): among the moves that raise the setup WNS without lowering the
    /// hold WHS, the one with the best setup WNS (the first of equals).
    Score(Vec<Swap>),
    /// Apply the move to the timer and re-time, then report the timer's state.
    Commit(Swap),
    /// Leakage trial: when the new cell leaks no more than the old one, apply the move and
    /// re-time; keep it if setup is met and hold not worsened, else restore the timer.
    /// Report whether it was kept ([`Swapper::tried`]).
    Try(Swap),
    /// Done: the swapper's `changed` lists every committed swap in order.
    Finish,
}

/// The Vt-swap loop's state. Its fields are private: only [`Swapper::new`] and the steps
/// change them, so [`Swapper::inv`] always holds.
pub struct Swapper {
    cfg: VtCfg,
    phase: Phase,
    /// Every committed swap, in order.
    changed: Vec<Swap>,
    /// How many of `changed`, at its front, are timing-pass (faster-flavor) moves.
    sped_up: usize,
}

/// The mathematical content of a [`Phase`].
pub enum PhaseView {
    Timing { moves: nat },
    Scoring { moves: nat, cands: Seq<SwapView> },
    LeakStart,
    Trying { insts: Seq<(Seq<char>, Seq<char>)>, at: int, swap: SwapView },
    Done,
}

/// The mathematical content of an [`Action`].
pub enum ActionView {
    Observe,
    Score(Seq<SwapView>),
    Commit(SwapView),
    Try(SwapView),
    Finish,
}

impl View for Phase {
    type V = PhaseView;

    open spec fn view(&self) -> PhaseView {
        match self {
            Phase::Timing { moves } => PhaseView::Timing { moves: *moves as nat },
            Phase::Scoring { moves, cands } => PhaseView::Scoring {
                moves: *moves as nat,
                cands: swaps_view(cands@),
            },
            Phase::LeakStart => PhaseView::LeakStart,
            Phase::Trying { insts, at, swap } => PhaseView::Trying {
                insts: insts_view(insts@),
                at: *at as int,
                swap: swap_view(*swap),
            },
            Phase::Done => PhaseView::Done,
        }
    }
}

impl View for Action {
    type V = ActionView;

    open spec fn view(&self) -> ActionView {
        match self {
            Action::Observe => ActionView::Observe,
            Action::Score(c) => ActionView::Score(swaps_view(c@)),
            Action::Commit(m) => ActionView::Commit(swap_view(*m)),
            Action::Try(m) => ActionView::Try(swap_view(*m)),
            Action::Finish => ActionView::Finish,
        }
    }
}

/// A step of the loop: the next phase, the committed swaps, and the next action.
pub type StepView = (PhaseView, Seq<SwapView>, ActionView);

/// Where the loop goes once the leakage pass may start, given whether setup is met and the
/// instances as they stand: it runs only on a design that meets setup, and begins with the
/// first instance that has a slower-flavor move.
pub open spec fn leakage_start(cfg: crate::job::CfgView, changed: Seq<SwapView>, setup_met: bool, insts: Seq<(Seq<char>, Seq<char>)>) -> StepView {
    if !setup_met {
        (PhaseView::Done, changed, ActionView::Finish)
    } else {
        match next_slowdown(cfg, insts, 0) {
            Some(j) => {
                let m = slowdown_for(cfg, insts[j]).unwrap();
                (PhaseView::Trying { insts, at: j, swap: m }, changed, ActionView::Try(m))
            },
            None => (PhaseView::Done, changed, ActionView::Finish),
        }
    }
}

/// The step on an observation of the timer: in the timing pass, stop when the budget is
/// spent, setup is met, or the worst path offers no move (and go on to the leakage pass);
/// otherwise score the worst path's moves.
pub open spec fn after_observe(cfg: crate::job::CfgView, phase: PhaseView, changed: Seq<SwapView>, setup_met: bool, path: Seq<Seq<char>>, insts: Seq<(Seq<char>, Seq<char>)>) -> StepView {
    match phase {
        PhaseView::Timing { moves } => {
            let cands = speedups(cfg, insts, path);
            if moves >= cfg.effort || setup_met || cands.len() == 0 {
                leakage_start(cfg, changed, setup_met, insts)
            } else {
                (PhaseView::Scoring { moves, cands }, changed, ActionView::Score(cands))
            }
        },
        _ => leakage_start(cfg, changed, setup_met, insts),
    }
}

/// The step on the scores of the timing pass's moves: commit the chosen one, or, when none
/// helps, leave the timing pass.
pub open spec fn after_scored(phase: PhaseView, changed: Seq<SwapView>, best: Option<int>) -> StepView {
    match phase {
        PhaseView::Scoring { moves, cands } => match best {
            Some(k) => (
                PhaseView::Timing { moves: moves + 1 },
                changed.push(cands[k]),
                ActionView::Commit(cands[k]),
            ),
            None => (PhaseView::LeakStart, changed, ActionView::Observe),
        },
        _ => (phase, changed, ActionView::Finish),
    }
}

/// The step on the outcome of a leakage trial. A kept swap is recorded, and the same
/// instance then tries the flavor after its new cell, so that each instance climbs to the
/// highest-Vt flavor that still meets timing; once a trial is refused, or the instance
/// reaches the slowest flavor of its group, the pass goes on with the next instance that has
/// a slower-flavor move.
pub open spec fn after_tried(cfg: crate::job::CfgView, phase: PhaseView, changed: Seq<SwapView>, kept: bool) -> StepView {
    match phase {
        PhaseView::Trying { insts, at, swap } => {
            let ch = if kept {
                changed.push(swap)
            } else {
                changed
            };
            let again = slowdown_for(cfg, (swap.0, swap.2));
            if kept && again is Some {
                let m = again.unwrap();
                (PhaseView::Trying { insts, at, swap: m }, ch, ActionView::Try(m))
            } else {
                match next_slowdown(cfg, insts, at + 1) {
                    Some(j) => {
                        let m = slowdown_for(cfg, insts[j]).unwrap();
                        (PhaseView::Trying { insts, at: j, swap: m }, ch, ActionView::Try(m))
                    },
                    None => (PhaseView::Done, ch, ActionView::Finish),
                }
            }
        },
        _ => (phase, changed, ActionView::Finish),
    }
}

/// A faster-flavor move: an instance outside `dont_touch` to the previous flavor of its
/// cell's group.
pub open spec fn is_speedup(cfg: crate::job::CfgView, m: SwapView) -> bool {
    !untouchable(cfg.dont_touch, m.0) && faster(cfg.groups, m.1) == Some(m.2)
}

/// A slower-flavor move: an instance outside `dont_touch` to the next flavor of its cell's
/// group.
pub open spec fn is_slowdown(cfg: crate::job::CfgView, m: SwapView) -> bool {
    !untouchable(cfg.dont_touch, m.0) && slower(cfg.groups, m.1) == Some(m.2)
}

/// What the committed swaps obey: the first `t` are faster-flavor moves, at most `effort` of
/// them and none under the leakage objective; the rest are slower-flavor moves. Every swap
/// stays inside one iso-footprint group, one step, on an instance outside `dont_touch`.
pub open spec fn swaps_obey(cfg: crate::job::CfgView, ch: Seq<SwapView>, t: int) -> bool {
    &&& 0 <= t <= ch.len()
    &&& t <= cfg.effort
    &&& cfg.objective == Objective::Leakage ==> t == 0
    &&& forall|k: int| 0 <= k < t ==> is_speedup(cfg, #[trigger] ch[k])
    &&& forall|k: int| t <= k < ch.len() ==> is_slowdown(cfg, #[trigger] ch[k])
}

/// Each step leaves a phase in which the caller's next report is expected.
pub open spec fn phase_obeys(cfg: crate::job::CfgView, p: PhaseView, ch: Seq<SwapView>, t: int) -> bool {
    match p {
        PhaseView::Timing { moves } => cfg.objective == Objective::Timing && t == ch.len()
            && moves == t,
        PhaseView::Scoring { moves, cands } => {
            &&& cfg.objective == Objective::Timing
            &&& t == ch.len()
            &&& moves == t
            &&& moves < cfg.effort
            &&& cands.len() > 0
            &&& forall|k: int| 0 <= k < cands.len() ==> is_speedup(cfg, #[trigger] cands[k])
        },
        PhaseView::LeakStart => true,
        PhaseView::Trying { insts, at, swap } => {
            &&& 0 <= at < insts.len()
            &&& swap.0 == insts[at].0
            &&& is_slowdown(cfg, swap)
        },
        PhaseView::Done => true,
    }
}

impl Swapper {
    /// The configuration the loop runs on.
    pub closed spec fn view_cfg(&self) -> VtCfg {
        self.cfg
    }

    /// Where the loop stands.
    pub closed spec fn view_phase(&self) -> PhaseView {
        self.phase@
    }

    /// The committed swaps, in order.
    pub closed spec fn view_changed(&self) -> Seq<SwapView> {
        swaps_view(self.changed@)
    }

    /// How many of the committed swaps, at their front, the timing pass made.
    pub closed spec fn view_sped_up(&self) -> nat {
        self.sped_up as nat
    }

    /// The configuration the loop runs on.
    pub fn cfg(&self) -> (r: &VtCfg)
        ensures
            *r == self.view_cfg(),
    {
        &self.cfg
    }

    /// Where the loop stands.
    pub fn phase(&self) -> (r: &Phase)
        ensures
            r@ == self.view_phase(),
    {
        &self.phase
    }

    /// The committed swaps, in order.
    pub fn changed(&self) -> (r: &Vec<Swap>)
        ensures
            swaps_view(r@) == self.view_changed(),
    {
        &self.changed
    }

    /// How many of the committed swaps, at their front, the timing pass made.
    pub fn sped_up(&self) -> (r: usize)
        ensures
            r as nat == self.view_sped_up(),
    {
        self.sped_up
    }

    /// The committed swaps, in order, taking the loop apart.
    pub fn into_changed(self) -> (r: Vec<Swap>)
        ensures
            swaps_view(r@) == self.view_changed(),
    {
        self.changed
    }

    /// The loop's invariant: the committed swaps obey the configuration, and the phase is
    /// one the steps can go on from.
    pub closed spec fn inv(&self) -> bool {
        &&& swaps_obey(self.cfg@, swaps_view(self.changed@), self.sped_up as int)
        &&& phase_obeys(self.cfg@, self.phase@, swaps_view(self.changed@), self.sped_up as int)
    }

    /// Starts the loop: the timing pass under the timing objective, else straight to the
    /// leakage pass; either way the first action is to observe the timer.
    pub fn new(cfg: VtCfg) -> (r: (Swapper, Action))
        ensures
            r.0.inv(),
            r.0.view_cfg() == cfg,
            r.0.view_phase() == (if cfg.objective == Objective::Timing {
                PhaseView::Timing { moves: 0 }
            } else {
                PhaseView::LeakStart
            }),
            r.0.view_changed().len() == 0,
            r.0.view_sped_up() == 0,
            r.1@ == ActionView::Observe,
    {
        let phase = if cfg.objective == Objective::Timing {
            Phase::Timing { moves: 0 }
        } else {
            Phase::LeakStart
        };
        let s = Swapper { cfg, phase, changed: Vec::new(), sped_up: 0 };
        assert(swaps_view(s.changed@) =~= Seq::<SwapView>::empty());
        (s, Action::Observe)
    }

    /// Whether the loop waits for an observation of the timer.
    pub open spec fn awaits_observation(&self) -> bool {
        self.view_phase() is Timing || self.view_phase() is LeakStart
    }

    /// Whether the loop waits for the scores of the timing pass's moves.
    pub open spec fn awaits_scores(&self) -> bool {
        self.view_phase() is Scoring
    }

    /// Whether the loop waits for the outcome of a leakage trial.
    pub open spec fn awaits_trial(&self) -> bool {
        self.view_phase() is Trying
    }

    /// Moves to the leakage pass (or to the end), given an observation.
    fn start_leakage(&mut self, setup_met: bool, insts: Vec<Inst>) -> (a: Action)
        requires
            swaps_obey(old(self).view_cfg()@, old(self).view_changed(), old(self).view_sped_up() as int),
        ensures
            final(self).inv(),
            final(self).view_cfg() == old(self).view_cfg(),
            final(self).view_sped_up() == old(self).view_sped_up(),
            (final(self).view_phase(), final(self).view_changed(), a@) == leakage_start(
                old(self).view_cfg()@,
                old(self).view_changed(),
                setup_met,
                insts_view(insts@),
            ),
    {
        if !setup_met {
            self.phase = Phase::Done;
            return Action::Finish;
        }
        match next_slowdown_from(&self.cfg, &insts, 0) {
            Some((at, swap)) => {
                let m = clone_swap(&swap);
                self.phase = Phase::Trying { insts, at, swap };
                Action::Try(m)
            },
            None => {
                self.phase = Phase::Done;
                Action::Finish
            },
        }
    }

    /// Reports the timer's state: whether setup is met, the node labels of its worst path,
    /// and the instances `(name, cell)` of its netlist.
    pub fn observe(&mut self, setup_met: bool, worst_path: &Vec<String>, insts: Vec<Inst>) -> (a: Action)
        requires
            old(self).inv(),
            old(self).awaits_observation(),
        ensures
            final(self).inv(),
            final(self).view_cfg() == old(self).view_cfg(),
            final(self).view_sped_up() == old(self).view_sped_up(),
            (final(self).view_phase(), final(self).view_changed(), a@) == after_observe(
                old(self).view_cfg()@,
                old(self).view_phase(),
                old(self).view_changed(),
                setup_met,
                strs(worst_path@),
                insts_view(insts@),
            ),
            (a@ == ActionView::Finish) == (final(self).view_phase() is Done),
            a@ != ActionView::Finish ==> lex_below(
                loop_measure(final(self).view_cfg()@, final(self).view_phase()),
                loop_measure(old(self).view_cfg()@, old(self).view_phase()),
            ),
    {
        proof {
            lemma_leakage_start_measure(
                self.cfg@,
                swaps_view(self.changed@),
                setup_met,
                insts_view(insts@),
            );
        }
        match self.phase {
            Phase::Timing { moves } => {
                if moves >= self.cfg.effort || setup_met {
                    return self.start_leakage(setup_met, insts);
                }
                let cands = timing_candidates(&self.cfg, &insts, worst_path);
                proof {
                    lemma_speedups_obey(self.cfg@, insts_view(insts@), strs(worst_path@));
                }
                if cands.len() == 0 {
                    return self.start_leakage(setup_met, insts);
                }
                let shown = clone_swaps(&cands);
                self.phase = Phase::Scoring { moves, cands };
                Action::Score(shown)
            },
            _ => self.start_leakage(setup_met, insts),
        }
    }

    /// Reports which of the scored moves to commit (its index), or `None` when none helps.
    pub fn scored(&mut self, best: Option<usize>) -> (a: Action)
        requires
            old(self).inv(),
            old(self).awaits_scores(),
            best matches Some(k) ==> k < old(self).view_phase()->cands.len(),
        ensures
            final(self).inv(),
            final(self).view_cfg() == old(self).view_cfg(),
            final(self).view_sped_up() == old(self).view_sped_up() + (if best is Some { 1int } else { 0 }),
            (final(self).view_phase(), final(self).view_changed(), a@) == after_scored(
                old(self).view_phase(),
                old(self).view_changed(),
                match best {
                    Some(k) => Some(k as int),
                    None => None,
                },
            ),
            (a@ == ActionView::Finish) == (final(self).view_phase() is Done),
            a@ != ActionView::Finish ==> lex_below(
                loop_measure(final(self).view_cfg()@, final(self).view_phase()),
                loop_measure(old(self).view_cfg()@, old(self).view_phase()),
            ),
    {
        let ghost ch0 = swaps_view(self.changed@);
        match &self.phase {
            Phase::Scoring { moves, cands } => {
                match best {
                    Some(k) => {
                        let m = clone_swap(&cands[k]);
                        let shown = clone_swap(&cands[k]);
                        let next = *moves + 1;
                        assert(swap_view(m) == swaps_view(cands@)[k as int]);
                        self.changed.push(m);
                        self.sped_up = self.sped_up + 1;
                        self.phase = Phase::Timing { moves: next };
                        proof {
                            assert(swaps_view(self.changed@) =~= ch0.push(swap_view(m)));
                        }
                        Action::Commit(shown)
                    },
                    None => {
                        self.phase = Phase::LeakStart;
                        Action::Observe
                    },
                }
            },
            _ => Action::Finish,
        }
    }

    /// Reports whether the last leakage trial was kept.
    pub fn tried(&mut self, kept: bool) -> (a: Action)
        requires
            old(self).inv(),
            old(self).awaits_trial(),
        ensures
            final(self).inv(),
            final(self).view_cfg() == old(self).view_cfg(),
            final(self).view_sped_up() == old(self).view_sped_up(),
            (final(self).view_phase(), final(self).view_changed(), a@) == after_tried(
                old(self).view_cfg()@,
                old(self).view_phase(),
                old(self).view_changed(),
                kept,
            ),
            (a@ == ActionView::Finish) == (final(self).view_phase() is Done),
            a@ != ActionView::Finish ==> lex_below(
                loop_measure(final(self).view_cfg()@, final(self).view_phase()),
                loop_measure(old(self).view_cfg()@, old(self).view_phase()),
            ),
    {
        let ghost ch0 = swaps_view(self.changed@);
        let mut phase = Phase::Done;
        std::mem::swap(&mut phase, &mut self.phase);
        assert(phase@ == old(self).view_phase());
        match phase {
            Phase::Trying { insts, at, swap } => {
                assert(insts_view(insts@).len() == insts.len());
                assert(at < insts.len());
                proof {
                    lemma_tried_measure(
                        self.cfg@,
                        insts_view(insts@),
                        at as int,
                        swap_view(swap),
                        ch0,
                        kept,
                    );
                }
                let again = slowdown_of(&self.cfg, &(swap.0.clone(), swap.2.clone()));
                if kept {
                    let ghost sv = swap_view(swap);
                    self.changed.push(swap);
                    proof {
                        assert(swaps_view(self.changed@) =~= ch0.push(sv));
                    }
                    if let Some(next) = again {
                        let m = clone_swap(&next);
                        self.phase = Phase::Trying { insts, at, swap: next };
                        return Action::Try(m);
                    }
                }
                match next_slowdown_from(&self.cfg, &insts, at + 1) {
                    Some((j, next)) => {
                        let m = clone_swap(&next);
                        self.phase = Phase::Trying { insts, at: j, swap: next };
                        Action::Try(m)
                    },
                    None => Action::Finish,
                }
            },
            other => {
                self.phase = other;
                Action::Finish
            },
        }
    }
}

/// Every candidate of the timing pass is a faster-flavor move.
proof fn lemma_speedups_obey(cfg: crate::job::CfgView, insts: Seq<(Seq<char>, Seq<char>)>, labels: Seq<Seq<char>>)
    ensures
        forall|k: int|
            0 <= k < speedups(cfg, insts, labels).len() ==> is_speedup(
                cfg,
                #[trigger] speedups(cfg, insts, labels)[k],
            ),
    decreases labels.len(),
{
    if labels.len() > 0 {
        let prev = speedups(cfg, insts, labels.drop_last());
        lemma_speedups_obey(cfg, insts, labels.drop_last());
        if let Some(x) = label_inst(labels.last()) {
            if !named_in(labels.drop_last(), x) {
                if let Some(m) = speedup_for(cfg, insts, x) {
                    assert(is_speedup(cfg, m));
                    assert forall|k: int|
                        0 <= k < prev.push(m).len() implies is_speedup(
                        cfg,
                        #[trigger] prev.push(m)[k],
                    ) by {
                        if k < prev.len() {
                            assert(prev.push(m)[k] == prev[k]);
                        }
                    }
                }
            }
        }
    }
}

fn clone_swaps(v: &Vec<Swap>) -> (r: Vec<Swap>)
    ensures
        swaps_view(r@) == swaps_view(v@),
{
    let mut r: Vec<Swap> = Vec::new();
    let mut k: usize = 0;
    while k < v.len()
        invariant
            k <= v.len(),
            swaps_view(r@) == swaps_view(v@).take(k as int),
        decreases v.len() - k,
    {
        let m = clone_swap(&v[k]);
        proof {
            assert(swaps_view(v@)[k as int] == swap_view(v@[k as int]));
            assert(swaps_view(v@).take(k + 1) =~= swaps_view(v@).take(k as int).push(
                swaps_view(v@)[k as int],
            ));
            assert(swaps_view(r@.push(m)) =~= swaps_view(r@).push(swap_view(m)));
        }
        r.push(m);
        k = k + 1;
    }
    assert(swaps_view(v@).take(v.len() as int) =~= swaps_view(v@));
    r
}

// ---------------------------------------------------------------------------------------
// Laws
// ---------------------------------------------------------------------------------------

/// Cells `a` and `b` are neighbouring flavors of one group: `b` stands `d` places after `a`.
pub open spec fn neighbours(gs: Seq<Seq<Seq<char>>>, a: Seq<char>, b: Seq<char>, d: int) -> bool {
    exists|gi: int, pi: int|
        0 <= gi < gs.len() && 0 <= pi < gs[gi].len() && 0 <= pi + d < gs[gi].len()
            && #[trigger] gs[gi][pi] == a && gs[gi][pi + d] == b
}

proof fn lemma_last_index_sound(g: Seq<Seq<char>>, c: Seq<char>)
    ensures
        last_index_of(g, c) matches Some(pi) ==> 0 <= pi < g.len() && g[pi] == c,
    decreases g.len(),
{
    if g.len() > 0 {
        lemma_last_index_sound(g.drop_last(), c);
    }
}

/// `flavor_pos` names a place where the cell stands.
pub proof fn lemma_flavor_pos_sound(gs: Seq<Seq<Seq<char>>>, c: Seq<char>)
    ensures
        flavor_pos(gs, c) matches Some((gi, pi)) ==> 0 <= gi < gs.len() && 0 <= pi < gs[gi].len()
            && gs[gi][pi] == c,
    decreases gs.len(),
{
    if gs.len() > 0 {
        lemma_last_index_sound(gs.last(), c);
        lemma_flavor_pos_sound(gs.drop_last(), c);
        if last_index_of(gs.last(), c) is None {
            if let Some((gi, pi)) = flavor_pos(gs.drop_last(), c) {
                assert(gs[gi] == gs.drop_last()[gi]);
            }
        }
    }
}

/// The faster flavor of a cell is its left neighbour in its group; the slower one its right
/// neighbour.
pub proof fn lemma_steps_are_neighbours(gs: Seq<Seq<Seq<char>>>, c: Seq<char>)
    ensures
        faster(gs, c) matches Some(f) ==> neighbours(gs, c, f, -1),
        slower(gs, c) matches Some(s) ==> neighbours(gs, c, s, 1),
{
    lemma_flavor_pos_sound(gs, c);
    if let Some((gi, pi)) = flavor_pos(gs, c) {
        if pi > 0 {
            assert(gs[gi][pi] == c && gs[gi][pi + -1] == gs[gi][pi - 1]);
        }
    }
}

/// What every state of the swap loop guarantees of the swaps it has committed, whatever the
/// timer reported: each replaces an instance's cell by a neighbouring flavor of the same
/// iso-footprint group (same logic, same footprint), never on a `dont_touch` instance; the
/// timing pass commits at most `effort` swaps, each to the next faster flavor; the others
/// are to the next slower flavor; and under the leakage objective no swap is to a faster
/// flavor.
pub proof fn lemma_committed_swaps(s: &Swapper)
    requires
        s.inv(),
    ensures
        s.view_sped_up() <= s.view_cfg().effort,
        s.view_sped_up() <= s.view_changed().len(),
        s.view_cfg().objective == Objective::Leakage ==> s.view_sped_up() == 0,
        forall|k: int|
            0 <= k < s.view_changed().len() ==> !untouchable(
                s.view_cfg()@.dont_touch,
                (#[trigger] s.view_changed()[k]).0,
            ),
        forall|k: int|
            0 <= k < s.view_sped_up() ==> neighbours(
                s.view_cfg()@.groups,
                (#[trigger] s.view_changed()[k]).1,
                s.view_changed()[k].2,
                -1,
            ),
        forall|k: int|
            s.view_sped_up() <= k < s.view_changed().len() ==> neighbours(
                s.view_cfg()@.groups,
                (#[trigger] s.view_changed()[k]).1,
                s.view_changed()[k].2,
                1,
            ),
{
    let ch = s.view_changed();
    assert forall|k: int| 0 <= k < s.view_sped_up() implies neighbours(
        s.view_cfg()@.groups,
        (#[trigger] ch[k]).1,
        ch[k].2,
        -1,
    ) by {
        lemma_steps_are_neighbours(s.view_cfg()@.groups, ch[k].1);
    }
    assert forall|k: int| s.view_sped_up() <= k < s.view_changed().len() implies neighbours(
        s.view_cfg()@.groups,
        (#[trigger] ch[k]).1,
        ch[k].2,
        1,
    ) by {
        lemma_steps_are_neighbours(s.view_cfg()@.groups, ch[k].1);
    }
}

// ---------------------------------------------------------------------------------------
// The loop ends
// ---------------------------------------------------------------------------------------

/// How many places the groups have in all.
pub open spec fn flat_len(gs: Seq<Seq<Seq<char>>>) -> nat
    decreases gs.len(),
{
    if gs.len() == 0 {
        0
    } else {
        flat_len(gs.drop_last()) + gs.last().len()
    }
}

/// The place of `(gi, pi)` when the groups are laid end to end.
pub open spec fn place(gs: Seq<Seq<Seq<char>>>, gi: int, pi: int) -> int {
    flat_len(gs.take(gi)) + pi
}

/// The place of cell `c`'s flavor position (0 for a cell of no group).
pub open spec fn place_of(gs: Seq<Seq<Seq<char>>>, c: Seq<char>) -> int {
    match flavor_pos(gs, c) {
        Some((gi, pi)) => place(gs, gi, pi),
        None => 0,
    }
}

proof fn lemma_flat_len_step(gs: Seq<Seq<Seq<char>>>, i: int)
    requires
        0 <= i < gs.len(),
    ensures
        flat_len(gs.take(i + 1)) == flat_len(gs.take(i)) + gs[i].len(),
{
    assert(gs.take(i + 1).drop_last() =~= gs.take(i));
}

proof fn lemma_flat_len_mono(gs: Seq<Seq<Seq<char>>>, i: int, j: int)
    requires
        0 <= i <= j <= gs.len(),
    ensures
        flat_len(gs.take(i)) <= flat_len(gs.take(j)),
        j < gs.len() ==> flat_len(gs.take(i)) <= flat_len(gs.take(j + 1)) - gs[j].len(),
    decreases j - i,
{
    if i < j {
        lemma_flat_len_mono(gs, i, j - 1);
        lemma_flat_len_step(gs, j - 1);
    }
    if j < gs.len() {
        lemma_flat_len_step(gs, j);
    }
}

/// A place is below the number of places.
proof fn lemma_place_bound(gs: Seq<Seq<Seq<char>>>, gi: int, pi: int)
    requires
        0 <= gi < gs.len(),
        0 <= pi < gs[gi].len(),
    ensures
        0 <= place(gs, gi, pi) < flat_len(gs),
{
    lemma_flat_len_mono(gs, gi, gi);
    lemma_flat_len_mono(gs, gi + 1, gs.len() as int);
    assert(gs.take(gs.len() as int) =~= gs);
}

proof fn lemma_last_index_max(g: Seq<Seq<char>>, c: Seq<char>, pj: int)
    requires
        0 <= pj < g.len(),
        g[pj] == c,
    ensures
        last_index_of(g, c) matches Some(pi) && pj <= pi,
    decreases g.len(),
{
    if pj < g.len() - 1 {
        lemma_last_index_max(g.drop_last(), c, pj);
    }
}

/// `flavor_pos` is the last place where the cell stands.
proof fn lemma_flavor_pos_max(gs: Seq<Seq<Seq<char>>>, c: Seq<char>, gj: int, pj: int)
    requires
        0 <= gj < gs.len(),
        0 <= pj < gs[gj].len(),
        gs[gj][pj] == c,
    ensures
        flavor_pos(gs, c) matches Some((gi, pi)) && (gj < gi || (gj == gi && pj <= pi)),
    decreases gs.len(),
{
    if gj == gs.len() - 1 {
        lemma_last_index_max(gs.last(), c, pj);
    } else {
        lemma_flavor_pos_max(gs.drop_last(), c, gj, pj);
        assert(gs.drop_last()[gj] == gs[gj]);
        lemma_last_index_sound(gs.last(), c);
    }
}

/// Stepping to the next slower flavor moves to a later place.
proof fn lemma_slower_climbs(gs: Seq<Seq<Seq<char>>>, c: Seq<char>)
    requires
        slower(gs, c) is Some,
    ensures
        flavor_pos(gs, c) is Some,
        flavor_pos(gs, slower(gs, c).unwrap()) is Some,
        0 <= place_of(gs, c) < place_of(gs, slower(gs, c).unwrap()) < flat_len(gs),
{
    lemma_flavor_pos_sound(gs, c);
    let (gi, pi) = flavor_pos(gs, c).unwrap();
    lemma_place_bound(gs, gi, pi);
    let d = slower(gs, c).unwrap();
    lemma_flavor_pos_max(gs, d, gi, pi + 1);
    lemma_flavor_pos_sound(gs, d);
    let (gj, pj) = flavor_pos(gs, d).unwrap();
    lemma_place_bound(gs, gj, pj);
    if gi < gj {
        lemma_flat_len_mono(gs, gi + 1, gj);
        lemma_flat_len_step(gs, gi);
    }
}

/// Pairs of naturals ordered lexicographically: `a` comes before `b`.
pub open spec fn lex_below(a: (nat, nat), b: (nat, nat)) -> bool {
    a.0 < b.0 || (a.0 == b.0 && a.1 < b.1)
}

/// What is left of the loop: the timing pass's remaining budget first, then the leakage
/// pass's remaining instances and, for the instance on trial, the places its cell can still
/// climb.
pub open spec fn loop_measure(cfg: crate::job::CfgView, p: PhaseView) -> (nat, nat) {
    let n = flat_len(cfg.groups);
    match p {
        PhaseView::Timing { moves } => ((2 * (cfg.effort - moves) + 3) as nat, 0),
        PhaseView::Scoring { moves, cands } => ((2 * (cfg.effort - moves) + 2) as nat, 0),
        PhaseView::LeakStart => (1, 0),
        PhaseView::Trying { insts, at, swap } => (
            0,
            ((insts.len() - at) * (n + 1) + (n - place_of(cfg.groups, swap.1))) as nat,
        ),
        PhaseView::Done => (0, 0),
    }
}

/// The leakage pass starts below any measure above the leakage pass.
proof fn lemma_leakage_start_measure(cfg: crate::job::CfgView, changed: Seq<SwapView>, met: bool, insts: Seq<(Seq<char>, Seq<char>)>)
    ensures
        loop_measure(cfg, leakage_start(cfg, changed, met, insts).0).0 == 0,
        (leakage_start(cfg, changed, met, insts).2 == ActionView::Finish) == (leakage_start(
            cfg,
            changed,
            met,
            insts,
        ).0 is Done),
{
}

/// A step of the leakage pass lowers the measure.
proof fn lemma_tried_measure(cfg: crate::job::CfgView, insts: Seq<(Seq<char>, Seq<char>)>, at: int, swap: SwapView, changed: Seq<SwapView>, kept: bool)
    requires
        0 <= at < insts.len(),
        is_slowdown(cfg, swap),
    ensures
        ({
            let r = after_tried(cfg, PhaseView::Trying { insts, at, swap }, changed, kept);
            &&& (r.2 == ActionView::Finish) == (r.0 is Done)
            &&& r.2 != ActionView::Finish ==> lex_below(
                loop_measure(cfg, r.0),
                loop_measure(cfg, PhaseView::Trying { insts, at, swap }),
            )
        }),
{
    let gs = cfg.groups;
    let n = flat_len(gs);
    let old_m = loop_measure(cfg, PhaseView::Trying { insts, at, swap });
    lemma_slower_climbs(gs, swap.1);
    assert(slower(gs, swap.1).unwrap() == swap.2);
    assert(0 <= place_of(gs, swap.1) < n);
    assert(old_m.1 == (insts.len() - at) * (n + 1) + (n - place_of(gs, swap.1)));
    let again = slowdown_for(cfg, (swap.0, swap.2));
    if kept && again is Some {
        lemma_slower_climbs(gs, swap.2);
        let m = again.unwrap();
        assert(m.1 == swap.2);
        let new_m = loop_measure(cfg, PhaseView::Trying { insts, at, swap: m });
        assert(new_m.1 == (insts.len() - at) * (n + 1) + (n - place_of(gs, swap.2)));
        assert(lex_below(new_m, old_m));
    } else {
        match next_slowdown(cfg, insts, at + 1) {
            Some(j) => {
                lemma_next_slowdown_range(cfg, insts, at + 1);
                let m = slowdown_for(cfg, insts[j]).unwrap();
                lemma_slower_climbs(gs, m.1);
                assert((insts.len() - j) * (n + 1) + (n + 1) <= (insts.len() - at) * (n + 1))
                    by (nonlinear_arith)
                    requires
                        at + 1 <= j,
                        n >= 0,
                ;
            },
            None => {},
        }
    }
}

proof fn lemma_next_slowdown_range(cfg: crate::job::CfgView, insts: Seq<(Seq<char>, Seq<char>)>, from: int)
    ensures
        next_slowdown(cfg, insts, from) matches Some(j) ==> from <= j < insts.len()
            && slowdown_for(cfg, insts[j]) is Some,
    decreases insts.len() - from,
{
    if 0 <= from < insts.len() && slowdown_for(cfg, insts[from]) is None {
        lemma_next_slowdown_range(cfg, insts, from + 1);
    }
}

/// `next_slowdown` finds the first instance from `from` on with a slower-flavor move, and
/// finds none only when there is none.
proof fn lemma_next_slowdown_first(cfg: crate::job::CfgView, insts: Seq<(Seq<char>, Seq<char>)>, from: int)
    requires
        0 <= from,
    ensures
        match next_slowdown(cfg, insts, from) {
            Some(j) => from <= j < insts.len() && slowdown_for(cfg, insts[j]) is Some && forall|i: int|
                from <= i < j ==> slowdown_for(cfg, #[trigger] insts[i]) is None,
            None => forall|i: int| from <= i < insts.len() ==> slowdown_for(cfg, #[trigger] insts[i]) is None,
        },
    decreases insts.len() - from,
{
    if from < insts.len() && slowdown_for(cfg, insts[from]) is None {
        lemma_next_slowdown_first(cfg, insts, from + 1);
    }
}

/// The leakage pass leaves out no instance that has a slower-flavor move. Whatever a
/// trial's outcome, the kept swap, and only it, is recorded; then the pass either takes the
/// same instance one flavor further (only after a kept trial), or goes on with the first
/// instance after it that has a slower-flavor move, trying that move; every instance in
/// between has none. It ends only when no instance after the tried one has a slower-flavor
/// move, and a refused trial never ends it while one is left.
pub proof fn lemma_leakage_pass_skips_none(
    cfg: crate::job::CfgView,
    insts: Seq<(Seq<char>, Seq<char>)>,
    at: int,
    swap: SwapView,
    changed: Seq<SwapView>,
    kept: bool,
)
    requires
        0 <= at < insts.len(),
    ensures
        ({
            let r = after_tried(cfg, PhaseView::Trying { insts, at, swap }, changed, kept);
            &&& r.1 == (if kept {
                changed.push(swap)
            } else {
                changed
            })
            &&& r.2 == ActionView::Finish ==> forall|j: int|
                at < j < insts.len() ==> slowdown_for(cfg, #[trigger] insts[j]) is None
            &&& (exists|j: int| at < j < insts.len() && slowdown_for(cfg, #[trigger] insts[j]) is Some)
                ==> r.2 is Try
            &&& r.2 matches ActionView::Try(m) ==> r.0 matches PhaseView::Trying { insts: i2, at: a2, swap: m2 } && i2
                == insts && m2 == m && ({
                ||| (kept && a2 == at && m == slowdown_for(cfg, (swap.0, swap.2)).unwrap())
                ||| (at < a2 < insts.len() && slowdown_for(cfg, insts[a2]) == Some(m) && forall|i: int|
                    at < i < a2 ==> slowdown_for(cfg, #[trigger] insts[i]) is None)
            })
            &&& !kept ==> !(r.0 matches PhaseView::Trying { at: a2, .. } && a2 == at)
        }),
{
    lemma_next_slowdown_first(cfg, insts, at + 1);
}

/// The timing pass goes on after each committed speed-up: the chosen candidate is recorded
/// at the end and committed; then, on an observation that setup is still violated, with
/// fewer than `effort` moves spent and faster-flavor moves on the worst path, the pass scores
/// exactly those moves. Once `effort` moves are spent, or setup is met, it scores no more.
pub proof fn lemma_timing_pass_goes_on(
    cfg: crate::job::CfgView,
    moves: nat,
    cands: Seq<SwapView>,
    changed: Seq<SwapView>,
    k: int,
    setup_met: bool,
    path: Seq<Seq<char>>,
    insts: Seq<(Seq<char>, Seq<char>)>,
)
    requires
        0 <= k < cands.len(),
    ensures
        ({
            let s1 = after_scored(PhaseView::Scoring { moves, cands }, changed, Some(k));
            let s2 = after_observe(cfg, s1.0, s1.1, setup_met, path, insts);
            &&& s1.1 == changed.push(cands[k])
            &&& s1.2 == ActionView::Commit(cands[k])
            &&& s2.1 == changed.push(cands[k])
            &&& (!setup_met && moves + 1 < cfg.effort && speedups(cfg, insts, path).len() > 0)
                ==> s2.2 == ActionView::Score(speedups(cfg, insts, path))
            &&& (setup_met || moves + 1 >= cfg.effort) ==> !(s2.2 is Score)
        }),
{
}

} // verus!
