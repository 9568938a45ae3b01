//! The selection of snapshots to free, and the decisions of the recompute loop.
use crate::zfs::{
    destroy_spec, destroy_target, range_views, selector, strings_view, RangeView, ReclaimResult,
    SnapRange,
};
use vstd::prelude::*;

verus! {

/// One snapshot of the dataset, in listing order, and whether it is marked.
#[derive(Debug)]
pub struct SnapshotListItem {
    pub name: String,
    pub marked: bool,
}

pub open spec fn marks_of(items: Seq<SnapshotListItem>) -> Seq<bool> {
    Seq::new(items.len(), |i: int| items[i].marked)
}

pub open spec fn names_of(items: Seq<SnapshotListItem>) -> Seq<Seq<char>> {
    Seq::new(items.len(), |i: int| items[i].name@)
}

/// The maximal runs of marked positions, as inclusive `(first, last)` pairs in order.
pub open spec fn mark_runs(m: Seq<bool>) -> Seq<(int, int)>
    decreases m.len(),
{
    if m.len() == 0 {
        seq![]
    } else {
        let prev = mark_runs(m.drop_last());
        let n = m.len() - 1;
        if !m[n] {
            prev
        } else if n > 0 && m[n - 1] && prev.len() > 0 {
            prev.update(prev.len() - 1, (prev.last().0, n))
        } else {
            prev.push((n, n))
        }
    }
}

/// The range that names a run: its one member, or its first and last.
pub open spec fn range_of(names: Seq<Seq<char>>, run: (int, int)) -> RangeView {
    if run.0 == run.1 {
        RangeView::Single(names[run.0])
    } else {
        RangeView::Range(names[run.0], names[run.1])
    }
}

pub open spec fn runs_view(names: Seq<Seq<char>>, runs: Seq<(int, int)>) -> Seq<RangeView> {
    Seq::new(runs.len(), |k: int| range_of(names, runs[k]))
}

/// The fewest ranges that cover exactly the marked items, in order.
pub open spec fn compress(names: Seq<Seq<char>>, marks: Seq<bool>) -> Seq<RangeView> {
    runs_view(names, mark_runs(marks))
}

/// Compresses the marked items into ranges, one for each maximal run of marked items.
pub fn snap_ranges<'a>(items: &'a [SnapshotListItem]) -> (r: Vec<SnapRange<'a>>)
    ensures
        range_views(r@) == compress(names_of(items@), marks_of(items@)),
{
    let n = items.len();
    let ghost m = marks_of(items@);
    let ghost names = names_of(items@);
    let mut out: Vec<SnapRange<'a>> = Vec::new();
    let mut start: Option<usize> = None;
    let mut i: usize = 0;
    while i < n
        invariant
            n == items@.len(),
            m == marks_of(items@),
            names == names_of(items@),
            i <= n,
            match start {
                None => (i == 0 || !m[i - 1]) && range_views(out@) == runs_view(
                    names,
                    mark_runs(m.subrange(0, i as int)),
                ),
                Some(s) => {
                    &&& s < i
                    &&& m[i - 1]
                    &&& mark_runs(m.subrange(0, i as int)).len() > 0
                    &&& mark_runs(m.subrange(0, i as int)).last() == (s as int, i - 1)
                    &&& range_views(out@) == runs_view(
                        names,
                        mark_runs(m.subrange(0, i as int)).drop_last(),
                    )
                },
            },
        decreases n - i,
    {
        let ghost prev = mark_runs(m.subrange(0, i as int));
        let ghost before = out@;
        proof {
            assert(m.subrange(0, i + 1).drop_last() =~= m.subrange(0, i as int));
            assert(m.subrange(0, i + 1)[i as int] == items@[i as int].marked);
        }
        if items[i].marked {
            match start {
                None => {
                    start = Some(i);
                    proof {
                        assert(mark_runs(m.subrange(0, i + 1)) == prev.push((i as int, i as int)));
                        assert(mark_runs(m.subrange(0, i + 1)).drop_last() =~= prev);
                    }
                },
                Some(s) => {
                    proof {
                        let next = prev.update(prev.len() - 1, (s as int, i as int));
                        assert(mark_runs(m.subrange(0, i + 1)) == next);
                        assert(next.drop_last() =~= prev.drop_last());
                    }
                },
            }
        } else {
            match start {
                None => {},
                Some(s) => {
                    let e = i - 1;
                    if s == e {
                        out.push(SnapRange::Single(items[s].name.as_str()));
                    } else {
                        out.push(SnapRange::Range(items[s].name.as_str(), items[e].name.as_str()));
                    }
                    proof {
                        assert(prev.drop_last().push(prev.last()) =~= prev);
                        assert(out@.last()@ == range_of(names, prev.last()));
                        assert(range_views(out@) =~= range_views(before).push(out@.last()@));
                        assert(runs_view(names, prev) =~= runs_view(names, prev.drop_last()).push(
                            range_of(names, prev.last()),
                        ));
                    }
                    start = None;
                },
            }
            proof {
                assert(mark_runs(m.subrange(0, i + 1)) == prev);
            }
        }
        i = i + 1;
    }
    proof {
        assert(m.subrange(0, n as int) =~= m);
    }
    match start {
        None => {},
        Some(s) => {
            let ghost prev = mark_runs(m);
            let ghost before = out@;
            let e = n - 1;
            if s == e {
                out.push(SnapRange::Single(items[s].name.as_str()));
            } else {
                out.push(SnapRange::Range(items[s].name.as_str(), items[e].name.as_str()));
            }
            proof {
                assert(prev.drop_last().push(prev.last()) =~= prev);
                assert(out@.last()@ == range_of(names, prev.last()));
                assert(range_views(out@) =~= range_views(before).push(out@.last()@));
                assert(runs_view(names, prev) =~= runs_view(names, prev.drop_last()).push(
                    range_of(names, prev.last()),
                ));
            }
        },
    }
    out
}

/// The runs lie inside `m`, in increasing order with at least one unmarked
/// position between two of them; each holds marked positions only, is bounded
/// by unmarked positions or the ends, and every marked position lies in one.
pub open spec fn runs_exact(m: Seq<bool>, runs: Seq<(int, int)>) -> bool {
    &&& forall|k: int| 0 <= k < runs.len() ==> 0 <= (#[trigger] runs[k]).0 <= runs[k].1 < m.len()
    &&& forall|k: int, l: int| 0 <= k < l < runs.len() ==> #[trigger] runs[k].1 + 1 < #[trigger] runs[l].0
    &&& forall|k: int, i: int| 0 <= k < runs.len() && (#[trigger] runs[k]).0 <= i <= runs[k].1 ==> #[trigger] m[i]
    &&& forall|k: int| 0 <= k < runs.len() ==> (#[trigger] runs[k]).0 == 0 || !m[runs[k].0 - 1]
    &&& forall|k: int| 0 <= k < runs.len() ==> (#[trigger] runs[k]).1 + 1 == m.len() || !m[runs[k].1 + 1]
    &&& forall|i: int| 0 <= i < m.len() && #[trigger] m[i] ==> exists|k: int| 0 <= k < runs.len() && (#[trigger] runs[k]).0 <= i <= runs[k].1
}

/// The ranges of a mark state are disjoint and ordered, and cover the marked
/// items exactly: every name they hold is that of a marked item, at the
/// bounds of a maximal run.
pub proof fn lemma_ranges_cover_marked(m: Seq<bool>)
    ensures
        runs_exact(m, mark_runs(m)),
    decreases m.len(),
{
    if m.len() > 0 {
        let d = m.drop_last();
        let n = m.len() - 1;
        let prev = mark_runs(d);
        lemma_ranges_cover_marked(d);
        let runs = mark_runs(m);
        assert forall|i: int| 0 <= i < n implies m[i] == d[i] by {}
        if !m[n] {
            assert(runs == prev);
            assert forall|i: int| 0 <= i < m.len() && #[trigger] m[i] implies exists|k: int|
                0 <= k < runs.len() && (#[trigger] runs[k]).0 <= i <= runs[k].1 by {
                assert(d[i]);
            }
            assert forall|k: int| 0 <= k < runs.len() implies (#[trigger] runs[k]).1 + 1 == m.len()
                || !m[runs[k].1 + 1] by {
                if runs[k].1 + 1 < n {
                    assert(!d[runs[k].1 + 1]);
                }
            }
        } else if n > 0 && m[n - 1] && prev.len() > 0 {
            let last = prev.len() - 1;
            assert(d[n - 1]);
            let k0 = choose|k: int| 0 <= k < prev.len() && (#[trigger] prev[k]).0 <= n - 1 <= prev[k].1;
            if k0 < last {
                assert(prev[k0].1 + 1 < prev[last].0);
            }
            assert(prev[last].1 == n - 1);
            assert(runs == prev.update(last, (prev[last].0, n)));
            assert forall|i: int| 0 <= i < m.len() && #[trigger] m[i] implies exists|k: int|
                0 <= k < runs.len() && (#[trigger] runs[k]).0 <= i <= runs[k].1 by {
                if i < n {
                    assert(d[i]);
                    let k = choose|k: int| 0 <= k < prev.len() && (#[trigger] prev[k]).0 <= i <= prev[k].1;
                    assert(runs[k].0 <= i <= runs[k].1);
                } else {
                    assert(runs[last].0 <= i <= runs[last].1);
                }
            }
            assert forall|k: int, i: int| 0 <= k < runs.len() && (#[trigger] runs[k]).0 <= i <= runs[k].1
                implies #[trigger] m[i] by {
                if i < n {
                    if k == last {
                        assert(prev[last].0 <= i <= prev[last].1);
                    }
                    assert(d[i]);
                }
            }
            assert forall|k: int, l: int| 0 <= k < l < runs.len() implies #[trigger] runs[k].1 + 1
                < #[trigger] runs[l].0 by {
                assert(prev[k].1 + 1 < prev[l].0);
            }
            assert forall|k: int| 0 <= k < runs.len() implies (#[trigger] runs[k]).0 == 0
                || !m[runs[k].0 - 1] by {
                assert(prev[k].0 == 0 || !d[prev[k].0 - 1]);
            }
            assert forall|k: int| 0 <= k < runs.len() implies (#[trigger] runs[k]).1 + 1 == m.len()
                || !m[runs[k].1 + 1] by {
                if k < last {
                    assert(prev[k].1 + 1 < prev[last].0);
                    assert(!d[prev[k].1 + 1]);
                }
            }
        } else {
            assert(runs == prev.push((n, n)));
            assert forall|k: int| 0 <= k < prev.len() implies (#[trigger] prev[k]).1 + 1 < n by {
                if prev[k].1 + 1 == n {
                    assert(d[n - 1]);
                }
            }
            if n > 0 && m[n - 1] {
                assert(d[n - 1]);
                assert(prev.len() > 0);
            }
            assert forall|i: int| 0 <= i < m.len() && #[trigger] m[i] implies exists|k: int|
                0 <= k < runs.len() && (#[trigger] runs[k]).0 <= i <= runs[k].1 by {
                if i < n {
                    assert(d[i]);
                    let k = choose|k: int| 0 <= k < prev.len() && (#[trigger] prev[k]).0 <= i <= prev[k].1;
                    assert(runs[k].0 <= i <= runs[k].1);
                } else {
                    assert(runs[prev.len() as int] == (n, n));
                }
            }
            assert forall|k: int, i: int| 0 <= k < runs.len() && (#[trigger] runs[k]).0 <= i <= runs[k].1
                implies #[trigger] m[i] by {
                if i < n {
                    assert(d[i]);
                }
            }
            assert forall|k: int, l: int| 0 <= k < l < runs.len() implies #[trigger] runs[k].1 + 1
                < #[trigger] runs[l].0 by {
                if l < prev.len() {
                    assert(prev[k].1 + 1 < prev[l].0);
                } else {
                    assert(prev[k].1 + 1 < n);
                }
            }
            assert forall|k: int| 0 <= k < runs.len() implies (#[trigger] runs[k]).0 == 0
                || !m[runs[k].0 - 1] by {
                if k < prev.len() {
                    assert(prev[k].0 == 0 || !d[prev[k].0 - 1]);
                }
            }
            assert forall|k: int| 0 <= k < runs.len() implies (#[trigger] runs[k]).1 + 1 == m.len()
                || !m[runs[k].1 + 1] by {
                if k < prev.len() {
                    assert(prev[k].1 + 1 < n);
                    assert(!d[prev[k].1 + 1]);
                }
            }
        }
    }
}

/// The mark state that runs over `n` items stand for.
pub open spec fn marks_from_runs(n: nat, runs: Seq<(int, int)>) -> Seq<bool> {
    Seq::new(n, |i: int| exists|k: int| 0 <= k < runs.len() && (#[trigger] runs[k]).0 <= i <= runs[k].1)
}

/// Re-deriving a mark state from its ranges gives that state back, so
/// compressing and serializing it again yields the identical ranges and selector.
pub proof fn lemma_ranges_rederive(names: Seq<Seq<char>>, m: Seq<bool>)
    ensures
        marks_from_runs(m.len(), mark_runs(m)) == m,
        compress(names, marks_from_runs(m.len(), mark_runs(m))) == compress(names, m),
        selector(compress(names, marks_from_runs(m.len(), mark_runs(m)))) == selector(
            compress(names, m),
        ),
{
    lemma_ranges_cover_marked(m);
    let runs = mark_runs(m);
    let e = marks_from_runs(m.len(), runs);
    assert forall|i: int| 0 <= i < m.len() implies e[i] == m[i] by {
        if m[i] {
            let k = choose|k: int| 0 <= k < runs.len() && (#[trigger] runs[k]).0 <= i <= runs[k].1;
            assert(runs[k].0 <= i <= runs[k].1);
        }
        if e[i] {
            let k = choose|k: int| 0 <= k < runs.len() && (#[trigger] runs[k]).0 <= i <= runs[k].1;
            assert(m[i]);
        }
    }
    assert(e =~= m);
}

/// A request of the interactive loop.
#[derive(Clone, Copy, Debug)]
pub enum Action {
    First,
    Last,
    Previous,
    Next,
    Toggle,
    Exit,
}

/// What the loop's wait ends with: an input, or the idle bound passing.
#[derive(Clone, Copy, Debug)]
pub enum Event {
    Input(Action),
    Idle,
}

/// The state of a session as its contracts see it.
pub struct AppView {
    pub dataset: Seq<char>,
    pub names: Seq<Seq<char>>,
    pub marks: Seq<bool>,
    pub cursor: Option<int>,
    pub dirty: bool,
    pub exit: bool,
    /// The stored estimate: the snapshots a dry run would remove, and the bytes freed.
    pub destroys: Seq<Seq<char>>,
    pub bytes: nat,
}

pub open spec fn view_wf(v: AppView) -> bool {
    &&& v.names.len() == v.marks.len()
    &&& v.cursor is Some ==> 0 <= v.cursor->0 < v.marks.len()
}

pub open spec fn cursor_first(v: AppView) -> Option<int> {
    if v.marks.len() == 0 {
        None
    } else {
        Some(0)
    }
}

pub open spec fn cursor_last(v: AppView) -> Option<int> {
    if v.marks.len() == 0 {
        None
    } else {
        Some(v.marks.len() - 1)
    }
}

/// One step up, staying on the first item; from no cursor, the last item.
pub open spec fn cursor_previous(v: AppView) -> Option<int> {
    if v.marks.len() == 0 {
        None
    } else {
        match v.cursor {
            None => Some(v.marks.len() - 1),
            Some(c) => Some(if c > 0 { c - 1 } else { 0 }),
        }
    }
}

/// One step down, staying on the last item; from no cursor, the first item.
pub open spec fn cursor_next(v: AppView) -> Option<int> {
    if v.marks.len() == 0 {
        None
    } else {
        match v.cursor {
            None => Some(0),
            Some(c) => Some(if c + 1 < v.marks.len() { c + 1 } else { c }),
        }
    }
}

pub open spec fn with_cursor(v: AppView, c: Option<int>) -> AppView {
    AppView { cursor: c, ..v }
}

/// Flips the mark under the cursor, marks the estimate stale, and moves on.
pub open spec fn toggled(v: AppView) -> AppView {
    match v.cursor {
        None => v,
        Some(c) => AppView {
            marks: v.marks.update(c, !v.marks[c]),
            dirty: true,
            cursor: cursor_next(v),
            ..v
        },
    }
}

pub open spec fn after_input(v: AppView, a: Action) -> AppView {
    match a {
        Action::First => with_cursor(v, cursor_first(v)),
        Action::Last => with_cursor(v, cursor_last(v)),
        Action::Previous => with_cursor(v, cursor_previous(v)),
        Action::Next => with_cursor(v, cursor_next(v)),
        Action::Toggle => toggled(v),
        Action::Exit => AppView { exit: true, ..v },
    }
}

pub open spec fn after_event(v: AppView, e: Event) -> AppView {
    match e {
        Event::Input(a) => after_input(v, a),
        Event::Idle => recomputed(v),
    }
}

/// The state once a stale estimate has been dealt with: with nothing marked
/// the estimate is empty; otherwise it awaits the dry run's answer.
pub open spec fn recomputed(v: AppView) -> AppView {
    if !v.dirty {
        v
    } else if mark_runs(v.marks).len() == 0 {
        AppView { dirty: false, destroys: seq![], bytes: 0, ..v }
    } else {
        AppView { dirty: false, ..v }
    }
}

/// An event calls for a dry run when the idle bound passes on a stale
/// estimate and something is marked.
pub open spec fn issues_dry_run(v: AppView, e: Event) -> bool {
    e is Idle && v.dirty && mark_runs(v.marks).len() > 0
}

/// `zfs destroy -nv `
pub open spec fn command_head() -> Seq<char> {
    seq!['z', 'f', 's', ' ', 'd', 'e', 's', 't', 'r', 'o', 'y', ' ', '-', 'n', 'v', ' ']
}

/// An interactive session over the snapshots of one dataset.
pub struct App {
    dataset: String,
    items: Vec<SnapshotListItem>,
    pub result: ReclaimResult,
    cursor: Option<usize>,
    dirty: bool,
    exit: bool,
}

impl View for App {
    type V = AppView;

    closed spec fn view(&self) -> AppView {
        AppView {
            dataset: self.dataset@,
            names: names_of(self.items@),
            marks: marks_of(self.items@),
            cursor: match self.cursor {
                Some(c) => Some(c as int),
                None => None,
            },
            dirty: self.dirty,
            exit: self.exit,
            destroys: strings_view(self.result.destroys@),
            bytes: self.result.bytes as nat,
        }
    }
}

impl App {
    pub open spec fn wf(&self) -> bool {
        view_wf(self@)
    }

    /// A session over `snapshots`, in their order, none marked, no cursor.
    pub fn new(dataset: &str, snapshots: Vec<String>) -> (r: App)
        ensures
            r.wf(),
            r@ == (AppView {
                dataset: dataset@,
                names: strings_view(snapshots@),
                marks: Seq::new(snapshots@.len(), |i: int| false),
                cursor: None,
                dirty: false,
                exit: false,
                destroys: seq![],
                bytes: 0,
            }),
    {
        let mut items: Vec<SnapshotListItem> = Vec::new();
        let mut i: usize = 0;
        while i < snapshots.len()
            invariant
                i <= snapshots@.len(),
                names_of(items@) == strings_view(snapshots@.subrange(0, i as int)),
                marks_of(items@) == Seq::new(i as nat, |j: int| false),
            decreases snapshots@.len() - i,
        {
            let ghost before = items@;
            items.push(SnapshotListItem { name: snapshots[i].clone(), marked: false });
            proof {
                assert(names_of(items@) =~= names_of(before).push(snapshots@[i as int]@));
                assert(strings_view(snapshots@.subrange(0, i + 1)) =~= strings_view(
                    snapshots@.subrange(0, i as int),
                ).push(snapshots@[i as int]@));
                assert(marks_of(items@) =~= marks_of(before).push(false));
                assert(marks_of(items@) =~= Seq::new((i + 1) as nat, |j: int| false));
            }
            i = i + 1;
        }
        proof {
            assert(snapshots@.subrange(0, snapshots@.len() as int) =~= snapshots@);
        }
        let result = ReclaimResult::default();
        proof {
            assert(strings_view(result.destroys@) =~= Seq::<Seq<char>>::empty());
        }
        App {
            dataset: dataset.to_owned(),
            items,
            result,
            cursor: None,
            dirty: false,
            exit: false,
        }
    }

    fn select_previous(&mut self)
        requires
            old(self).wf(),
        ensures
            final(self).wf(),
            final(self)@ == with_cursor(old(self)@, cursor_previous(old(self)@)),
    {
        let n = self.items.len();
        if n > 0 {
            self.cursor = match self.cursor {
                None => Some(n - 1),
                Some(c) => Some(if c > 0 { c - 1 } else { 0 }),
            };
        }
    }

    fn select_next(&mut self)
        requires
            old(self).wf(),
        ensures
            final(self).wf(),
            final(self)@ == with_cursor(old(self)@, cursor_next(old(self)@)),
    {
        let n = self.items.len();
        if n > 0 {
            self.cursor = match self.cursor {
                None => Some(0),
                Some(c) => Some(if c + 1 < n { c + 1 } else { c }),
            };
        }
    }

    fn select_first(&mut self)
        requires
            old(self).wf(),
        ensures
            final(self).wf(),
            final(self)@ == with_cursor(old(self)@, cursor_first(old(self)@)),
    {
        if self.items.len() > 0 {
            self.cursor = Some(0);
        }
    }

    fn select_last(&mut self)
        requires
            old(self).wf(),
        ensures
            final(self).wf(),
            final(self)@ == with_cursor(old(self)@, cursor_last(old(self)@)),
    {
        let n = self.items.len();
        if n > 0 {
            self.cursor = Some(n - 1);
        }
    }

    fn exit(&mut self)
        requires
            old(self).wf(),
        ensures
            final(self).wf(),
            final(self)@ == (AppView { exit: true, ..old(self)@ }),
    {
        self.exit = true;
    }

    /// Flips the mark under the cursor and moves the cursor on; the estimate
    /// becomes stale on every flip, also one that undoes an earlier flip.
    fn mark_current(&mut self)
        requires
            old(self).wf(),
        ensures
            final(self).wf(),
            final(self)@ == toggled(old(self)@),
            old(self)@.cursor is Some ==> final(self)@.dirty,
    {
        match self.cursor {
            None => {},
            Some(c) => {
                let ghost before = self.items@;
                let marked = self.items[c].marked;
                self.items[c].marked = !marked;
                proof {
                    assert(names_of(self.items@) =~= names_of(before));
                    assert(marks_of(self.items@) =~= marks_of(before).update(c as int, !marked));
                }
                self.dirty = true;
                self.select_next();
            },
        }
    }

    /// Carries out one request of the user.
    pub fn handle_key_event(&mut self, action: Action)
        requires
            old(self).wf(),
        ensures
            final(self).wf(),
            final(self)@ == after_input(old(self)@, action),
    {
        match action {
            Action::First => self.select_first(),
            Action::Last => self.select_last(),
            Action::Previous => self.select_previous(),
            Action::Next => self.select_next(),
            Action::Toggle => self.mark_current(),
            Action::Exit => self.exit(),
        }
    }

    /// Deals with a stale estimate: clears the stale flag and, when something
    /// is marked, returns the target of the dry-run destroy whose answer
    /// `apply_reclaim` then stores; with nothing marked the estimate is emptied.
    pub fn recalculate_result(&mut self) -> (r: Option<String>)
        requires
            old(self).wf(),
        ensures
            final(self).wf(),
            final(self)@ == recomputed(old(self)@),
            r is Some <==> old(self)@.dirty && mark_runs(old(self)@.marks).len() > 0,
            r is Some ==> r->0@ == destroy_spec(
                old(self)@.dataset,
                compress(old(self)@.names, old(self)@.marks),
            ),
    {
        if !self.dirty {
            return None;
        }
        self.dirty = false;
        let ranges = snap_ranges(self.items.as_slice());
        proof {
            assert(range_views(ranges@).len() == ranges@.len());
        }
        if ranges.len() == 0 {
            let empty = ReclaimResult::default();
            proof {
                assert(strings_view(empty.destroys@) =~= Seq::<Seq<char>>::empty());
            }
            self.result = empty;
            return None;
        }
        let target = destroy_target(self.dataset.as_str(), ranges.as_slice());
        Some(target)
    }

    /// Stores the answer of the dry run that `recalculate_result` asked for.
    pub fn apply_reclaim(&mut self, result: ReclaimResult)
        requires
            old(self).wf(),
        ensures
            final(self).wf(),
            final(self)@ == (AppView {
                destroys: strings_view(result.destroys@),
                bytes: result.bytes as nat,
                ..old(self)@
            }),
    {
        self.result = result;
    }

    /// One turn of the interactive loop: an input changes the selection and
    /// asks for nothing; the idle bound passing deals with a stale estimate.
    pub fn handle_event(&mut self, event: Event) -> (r: Option<String>)
        requires
            old(self).wf(),
        ensures
            final(self).wf(),
            final(self)@ == after_event(old(self)@, event),
            r is Some <==> issues_dry_run(old(self)@, event),
            r is Some ==> r->0@ == destroy_spec(
                old(self)@.dataset,
                compress(old(self)@.names, old(self)@.marks),
            ),
    {
        match event {
            Event::Input(action) => {
                self.handle_key_event(action);
                None
            },
            Event::Idle => self.recalculate_result(),
        }
    }

    /// The dry-run command an operator can run to check the estimate.
    pub fn equivalent_command_line(&self) -> (r: String)
        ensures
            r@ == command_head() + destroy_spec(self@.dataset, compress(self@.names, self@.marks)),
    {
        let ranges = snap_ranges(self.items.as_slice());
        let target = destroy_target(self.dataset.as_str(), ranges.as_slice());
        let mut out = String::from_str("zfs destroy -nv ");
        out.append(target.as_str());
        proof {
            reveal_strlit("zfs destroy -nv ");
        }
        out
    }

    pub fn dataset(&self) -> (r: &str)
        ensures
            r@ == self@.dataset,
    {
        self.dataset.as_str()
    }

    pub fn items(&self) -> (r: &[SnapshotListItem])
        ensures
            names_of(r@) == self@.names,
            marks_of(r@) == self@.marks,
    {
        self.items.as_slice()
    }

    pub fn cursor(&self) -> (r: Option<usize>)
        ensures
            r is Some <==> self@.cursor is Some,
            r is Some ==> r->0 == self@.cursor->0,
    {
        self.cursor
    }

    pub fn is_dirty(&self) -> (r: bool)
        ensures
            r == self@.dirty,
    {
        self.dirty
    }

    pub fn should_exit(&self) -> (r: bool)
        ensures
            r == self@.exit,
    {
        self.exit
    }
}

/// Flipping a mark and flipping it back leaves the marks as they were, yet
/// the estimate is stale: every flip marks it so.
pub proof fn lemma_toggle_back_stays_dirty(v: AppView)
    requires
        view_wf(v),
        v.cursor is Some,
        v.cursor->0 + 1 < v.marks.len(),
    ensures
        toggled(after_input(toggled(v), Action::Previous)).marks == v.marks,
        toggled(after_input(toggled(v), Action::Previous)).dirty,
        toggled(v).dirty,
{
    let c = v.cursor->0;
    let w = after_input(toggled(v), Action::Previous);
    assert(w.cursor == Some(c));
    assert(toggled(w).marks =~= v.marks);
}

/// The number of dry runs that a run of events asks for, from state `v`.
pub open spec fn dry_runs(v: AppView, events: Seq<Event>) -> nat
    decreases events.len(),
{
    if events.len() == 0 {
        0
    } else {
        (if issues_dry_run(v, events[0]) { 1nat } else { 0nat }) + dry_runs(
            after_event(v, events[0]),
            events.drop_first(),
        )
    }
}

/// The number of times the idle bound passes in a run of events.
pub open spec fn idle_count(events: Seq<Event>) -> nat
    decreases events.len(),
{
    if events.len() == 0 {
        0
    } else {
        (if events[0] is Idle { 1nat } else { 0nat }) + idle_count(events.drop_first())
    }
}

/// Whatever inputs come, and however many marks they flip, the loop asks for
/// at most one dry run each time the idle bound passes, and none otherwise.
pub proof fn lemma_one_dry_run_per_idle(v: AppView, events: Seq<Event>)
    ensures
        dry_runs(v, events) <= idle_count(events),
    decreases events.len(),
{
    if events.len() > 0 {
        lemma_one_dry_run_per_idle(after_event(v, events[0]), events.drop_first());
    }
}

} // verus!
