//! Host-owned playback queue: the pending list, the track most recently handed
//! to the engine (`reserved`), and the folder fallback used once the pending
//! list runs dry.
use std::collections::VecDeque;
use vstd::prelude::*;

verus! {

/// How a track entered the playback queue.
#[derive(Clone, Copy, Debug, PartialEq, Eq, Structural)]
pub enum QueueOrigin {
    Manual,
    Automatic,
}

/// A queued path together with the policy that controls its priority.
#[derive(Clone, Debug, PartialEq, Eq)]
pub struct QueueItem {
    pub path: String,
    pub origin: QueueOrigin,
}

/// The mathematical value of a [`QueueItem`].
pub struct ItemView {
    pub path: Seq<char>,
    pub origin: QueueOrigin,
}

impl View for QueueItem {
    type V = ItemView;

    open spec fn view(&self) -> ItemView {
        ItemView { path: self.path@, origin: self.origin }
    }
}

/// The views of a sequence of items.
pub open spec fn items_view(s: Seq<QueueItem>) -> Seq<ItemView> {
    s.map_values(|i: QueueItem| i@)
}

pub open spec fn opt_item_view(o: Option<QueueItem>) -> Option<ItemView> {
    match o {
        Some(i) => Some(i@),
        None => None,
    }
}

pub open spec fn manual_view(path: Seq<char>) -> ItemView {
    ItemView { path, origin: QueueOrigin::Manual }
}

pub open spec fn automatic_view(path: Seq<char>) -> ItemView {
    ItemView { path, origin: QueueOrigin::Automatic }
}

impl QueueItem {
    pub fn manual(path: String) -> (r: QueueItem)
        ensures
            r@ == manual_view(path@),
    {
        QueueItem { path, origin: QueueOrigin::Manual }
    }

    pub fn automatic(path: String) -> (r: QueueItem)
        ensures
            r@ == automatic_view(path@),
    {
        QueueItem { path, origin: QueueOrigin::Automatic }
    }

    /// A copy with the same path and origin.
    pub fn duplicate(&self) -> (r: QueueItem)
        ensures
            r@ == self@,
    {
        QueueItem { path: self.path.clone(), origin: self.origin }
    }

    /// Whether both items name the same path with the same origin.
    pub fn same_as(&self, other: &QueueItem) -> (r: bool)
        ensures
            r == (self@ == other@),
    {
        let same_path = self.path == other.path;
        same_path && self.origin == other.origin
    }
}

/// Copies of every item, in order.
pub fn copy_items(v: &Vec<QueueItem>) -> (r: Vec<QueueItem>)
    ensures
        items_view(r@) == items_view(v@),
{
    let mut r: Vec<QueueItem> = Vec::new();
    let mut i: usize = 0;
    while i < v.len()
        invariant
            i <= v.len(),
            r.len() == i,
            forall|j: int| 0 <= j < i ==> #[trigger] r@[j]@ == v@[j]@,
        decreases v.len() - i,
    {
        r.push(v[i].duplicate());
        i = i + 1;
    }
    assert(items_view(r@) =~= items_view(v@));
    r
}

/// A copy of the queued items, in order.
fn copy_queued(v: &VecDeque<QueueItem>) -> (r: Vec<QueueItem>)
    ensures
        items_view(r@) == items_view(v@),
{
    let mut r: Vec<QueueItem> = Vec::new();
    let mut i: usize = 0;
    while i < v.len()
        invariant
            i <= v.len(),
            r.len() == i,
            forall|j: int| 0 <= j < i ==> #[trigger] r@[j]@ == v@[j]@,
        decreases v.len() - i,
    {
        r.push(v[i].duplicate());
        i = i + 1;
    }
    assert(items_view(r@) =~= items_view(v@));
    r
}

/// Length of the leading run of manual items: the index at which a new
/// manual item goes so that every manual item stays ahead of every
/// automatic one.
pub open spec fn manual_prefix_len(s: Seq<ItemView>) -> nat
    decreases s.len(),
{
    if s.len() == 0 {
        0
    } else if s[0].origin == QueueOrigin::Automatic {
        0
    } else {
        1 + manual_prefix_len(s.drop_first())
    }
}

pub proof fn lemma_manual_prefix_len(s: Seq<ItemView>)
    ensures
        manual_prefix_len(s) <= s.len(),
        forall|j: int| 0 <= j < manual_prefix_len(s) ==> s[j].origin == QueueOrigin::Manual,
        manual_prefix_len(s) < s.len() ==> s[manual_prefix_len(s) as int].origin
            == QueueOrigin::Automatic,
    decreases s.len(),
{
    if s.len() > 0 && s[0].origin != QueueOrigin::Automatic {
        lemma_manual_prefix_len(s.drop_first());
        assert forall|j: int| 0 <= j < manual_prefix_len(s) implies s[j].origin
            == QueueOrigin::Manual by {
            if j > 0 {
                assert(s[j] == s.drop_first()[j - 1]);
            }
        }
    }
}

/// The first-automatic index is the only index with the properties above.
pub proof fn lemma_manual_prefix_unique(s: Seq<ItemView>, k: int)
    requires
        0 <= k <= s.len(),
        forall|j: int| 0 <= j < k ==> s[j].origin == QueueOrigin::Manual,
        k < s.len() ==> s[k].origin == QueueOrigin::Automatic,
    ensures
        manual_prefix_len(s) == k,
{
    lemma_manual_prefix_len(s);
    let m = manual_prefix_len(s) as int;
    if m < k {
        assert(s[m].origin == QueueOrigin::Manual);
    } else if k < m {
        assert(s[k].origin == QueueOrigin::Manual);
    }
}

/// Index of the first automatic item, or the length when there is none.
pub fn first_automatic(v: &Vec<QueueItem>) -> (r: usize)
    ensures
        r as nat == manual_prefix_len(items_view(v@)),
{
    let mut i: usize = 0;
    while i < v.len() && v[i].origin != QueueOrigin::Automatic
        invariant
            i <= v.len(),
            forall|j: int| 0 <= j < i ==> v@[j].origin == QueueOrigin::Manual,
        decreases v.len() - i,
    {
        i = i + 1;
    }
    proof {
        lemma_manual_prefix_unique(items_view(v@), i as int);
    }
    i
}

/// Where a new manual item goes in the queue: after the leading manual run.
fn first_automatic_queued(v: &VecDeque<QueueItem>) -> (r: usize)
    ensures
        r as nat == manual_prefix_len(items_view(v@)),
{
    let mut i: usize = 0;
    while i < v.len() && v[i].origin != QueueOrigin::Automatic
        invariant
            i <= v.len(),
            forall|j: int| 0 <= j < i ==> v@[j].origin == QueueOrigin::Manual,
        decreases v.len() - i,
    {
        i = i + 1;
    }
    proof {
        lemma_manual_prefix_unique(items_view(v@), i as int);
    }
    i
}

/// Manual items come first, automatic ones after.
pub open spec fn partitioned(s: Seq<ItemView>) -> bool {
    forall|i: int, j: int|
        0 <= i < j < s.len() && s[i].origin == QueueOrigin::Automatic ==> s[j].origin
            == QueueOrigin::Automatic
}


/// The pending queue plus the most recently reserved (handed to the engine)
/// track.
///
/// When `reserved_is_next` is `false`, `reserved` is the first hand-off of a
/// [`HostSource`]: the track being prepared as *current*, not as next-up, and
/// the displayed list (`[reserved?] ++ pending`) omits it.
#[derive(Debug)]
pub struct QueueState {
    pub pending: VecDeque<QueueItem>,
    pub reserved: Option<QueueItem>,
    pub reserved_is_next: bool,
}

pub struct QueueStateView {
    pub pending: Seq<ItemView>,
    pub reserved: Option<ItemView>,
    pub reserved_is_next: bool,
}

impl View for QueueState {
    type V = QueueStateView;

    open spec fn view(&self) -> QueueStateView {
        QueueStateView {
            pending: items_view(self.pending@),
            reserved: opt_item_view(self.reserved),
            reserved_is_next: self.reserved_is_next,
        }
    }
}

impl QueueStateView {
    /// Whether the reserved row is shown as next-up.
    pub open spec fn has_displayed_reserved(self) -> bool {
        self.reserved is Some && self.reserved_is_next
    }

    /// The reserved row the UI treats as next-up.
    pub open spec fn displayed_reserved(self) -> Option<ItemView> {
        if self.has_displayed_reserved() {
            self.reserved
        } else {
            None
        }
    }

    /// The list the UI displays: the next-up reserved row, if any, followed
    /// by the pending queue.
    pub open spec fn displayed(self) -> Seq<ItemView> {
        if self.has_displayed_reserved() {
            seq![self.reserved->0] + self.pending
        } else {
            self.pending
        }
    }
}

/// A fresh, empty queue with nothing reserved.
pub fn new_shared_queue() -> (q: QueueState)
    ensures
        q@.pending == Seq::<ItemView>::empty(),
        q@.reserved is None,
        !q@.reserved_is_next,
{
    let q = QueueState { pending: VecDeque::new(), reserved: None, reserved_is_next: false };
    assert(q@.pending =~= Seq::<ItemView>::empty());
    q
}

/// Insert `item` at `at` and show the view of the result.
fn insert_item(v: &mut VecDeque<QueueItem>, at: usize, item: QueueItem)
    requires
        at <= old(v).len(),
    ensures
        items_view(final(v)@) == items_view(old(v)@).insert(at as int, item@),
{
    v.insert(at, item);
    assert(items_view(v@) =~= items_view(old(v)@).insert(at as int, item@));
}

/// Remove the item at `at` and show the view of the result.
fn remove_item(v: &mut VecDeque<QueueItem>, at: usize) -> (r: QueueItem)
    requires
        at < old(v).len(),
    ensures
        items_view(final(v)@) == items_view(old(v)@).remove(at as int),
        r@ == items_view(old(v)@)[at as int],
{
    match v.remove(at) {
        Some(r) => {
            assert(items_view(v@) =~= items_view(old(v)@).remove(at as int));
            r
        },
        None => {
            assert(false);
            QueueItem::manual(String::new())
        },
    }
}

/// Add a manual `path` behind every manual item already waiting and ahead of
/// the automatic ones. Returns the pending queue's length after the insert.
pub fn enqueue(queue: &mut QueueState, path: String) -> (len: usize)
    requires
        old(queue).pending.len() < usize::MAX,
    ensures
        final(queue)@.pending == old(queue)@.pending.insert(
            manual_prefix_len(old(queue)@.pending) as int,
            manual_view(path@),
        ),
        final(queue)@.reserved == old(queue)@.reserved,
        final(queue)@.reserved_is_next == old(queue)@.reserved_is_next,
        len == final(queue)@.pending.len(),
{
    let at = first_automatic_queued(&queue.pending);
    proof {
        lemma_manual_prefix_len(items_view(queue.pending@));
    }
    insert_item(&mut queue.pending, at, QueueItem::manual(path));
    queue.pending.len()
}

/// Replace the whole pending queue with `items`, leaving `reserved` alone.
pub fn replace_pending(queue: &mut QueueState, items: Vec<QueueItem>)
    ensures
        final(queue)@.pending == items_view(items@),
        final(queue)@.reserved == old(queue)@.reserved,
        final(queue)@.reserved_is_next == old(queue)@.reserved_is_next,
{
    let mut items = items;
    let mut pending: VecDeque<QueueItem> = VecDeque::new();
    let ghost all = items@;
    while items.len() > 0
        invariant
            all == items@ + pending@,
        decreases items.len(),
    {
        let ghost before = items@;
        let item = items.pop().unwrap();
        assert(before == items@.push(item));
        pending.push_front(item);
        assert(all =~= items@ + pending@);
    }
    assert(all =~= pending@);
    queue.pending = pending;
}

/// Snapshot of the pending queue's current contents.
pub fn snapshot(queue: &QueueState) -> (r: Vec<QueueItem>)
    ensures
        items_view(r@) == queue@.pending,
{
    copy_queued(&queue.pending)
}

/// `(displayed reserved, pending)` read together.
pub fn state_snapshot(queue: &QueueState) -> (r: (Option<QueueItem>, Vec<QueueItem>))
    ensures
        opt_item_view(r.0) == queue@.displayed_reserved(),
        items_view(r.1@) == queue@.pending,
{
    let reserved = match &queue.reserved {
        Some(item) if queue.reserved_is_next => Some(item.duplicate()),
        _ => None,
    };
    (reserved, copy_queued(&queue.pending))
}

/// Last path handed to the engine, including a first-track current that
/// [`state_snapshot`] does not expose as the displayed reserved row.
pub fn reserved_track(queue: &QueueState) -> (r: Option<String>)
    ensures
        match r {
            Some(p) => queue@.reserved matches Some(item) && p@ == item.path,
            None => queue@.reserved is None,
        },
{
    match &queue.reserved {
        Some(item) => Some(item.path.clone()),
        None => None,
    }
}

pub open spec fn has_manual(s: Seq<ItemView>) -> bool {
    exists|i: int| 0 <= i < s.len() && s[i].origin == QueueOrigin::Manual
}

fn any_manual(v: &VecDeque<QueueItem>) -> (r: bool)
    ensures
        r == has_manual(items_view(v@)),
{
    let mut i: usize = 0;
    while i < v.len()
        invariant
            i <= v.len(),
            forall|j: int| 0 <= j < i ==> v@[j].origin != QueueOrigin::Manual,
        decreases v.len() - i,
    {
        if v[i].origin == QueueOrigin::Manual {
            assert(items_view(v@)[i as int].origin == QueueOrigin::Manual);
            return true;
        }
        i = i + 1;
    }
    assert(!has_manual(items_view(v@)));
    false
}

/// An automatic next-up track is reserved while manual work waits.
pub open spec fn needs_manual_priority(q: QueueStateView) -> bool {
    &&& q.has_displayed_reserved()
    &&& q.reserved->0.origin == QueueOrigin::Automatic
    &&& has_manual(q.pending)
}

pub fn manual_priority_needed(queue: &QueueState) -> (r: bool)
    ensures
        r == needs_manual_priority(queue@),
{
    match &queue.reserved {
        Some(item) => queue.reserved_is_next && item.origin == QueueOrigin::Automatic && any_manual(
            &queue.pending,
        ),
        None => false,
    }
}

/// If an automatic next track is reserved while manual work is waiting,
/// revoke it and put it behind the manual partition. `revoke` decides
/// whether the engine-side track can be taken back right now; it runs only
/// when priority is needed.
pub fn prioritize_manual<F: FnOnce() -> Option<String>>(queue: &mut QueueState, revoke: F) -> (r:
    Option<QueueItem>)
    requires
        call_requires(revoke, ()),
        old(queue).pending.len() < usize::MAX,
    ensures
        match r {
            None => final(queue)@ == old(queue)@,
            Some(item) => {
                &&& needs_manual_priority(old(queue)@)
                &&& Some(item@) == old(queue)@.reserved
                &&& final(queue)@.reserved is None
                &&& !final(queue)@.reserved_is_next
                &&& exists|path: String|
                    call_ensures(revoke, (), Some(path)) && final(queue)@.pending == old(
                        queue,
                    )@.pending.insert(
                        manual_prefix_len(old(queue)@.pending) as int,
                        automatic_view(path@),
                    )
            },
        },
        !needs_manual_priority(old(queue)@) ==> r is None,
        r is None && needs_manual_priority(old(queue)@) ==> call_ensures(revoke, (), None::<String>),
{
    if !manual_priority_needed(queue) {
        return None;
    }
    let revoked = revoke();
    let path = match revoked {
        Some(path) => path,
        None => {
            assert(call_ensures(revoke, (), None::<String>));
            return None;
        },
    };
    let item = match queue.reserved.take() {
        Some(item) => item,
        None => QueueItem::automatic(path.clone()),
    };
    queue.reserved_is_next = false;
    let at = first_automatic_queued(&queue.pending);
    proof {
        lemma_manual_prefix_len(items_view(queue.pending@));
    }
    let ghost p = path;
    insert_item(&mut queue.pending, at, QueueItem::automatic(path));
    assert(call_ensures(revoke, (), Some(p)));
    Some(item)
}


pub open spec fn paths_view(s: Seq<String>) -> Seq<Seq<char>> {
    s.map_values(|p: String| p@)
}

pub open spec fn item_paths(s: Seq<ItemView>) -> Seq<Seq<char>> {
    s.map_values(|i: ItemView| i.path)
}

pub open spec fn manual_views(s: Seq<Seq<char>>) -> Seq<ItemView> {
    s.map_values(|p: Seq<char>| manual_view(p))
}

/// Candidates in order, dropping any already in `seen` and any repeat of an
/// earlier candidate.
pub open spec fn fresh_paths(cands: Seq<Seq<char>>, seen: Seq<Seq<char>>) -> Seq<Seq<char>>
    decreases cands.len(),
{
    if cands.len() == 0 {
        Seq::empty()
    } else if seen.contains(cands[0]) {
        fresh_paths(cands.drop_first(), seen)
    } else {
        seq![cands[0]] + fresh_paths(cands.drop_first(), seen.push(cands[0]))
    }
}

/// Every candidate ends up either already seen or among the fresh ones.
pub proof fn lemma_fresh_paths_cover(cands: Seq<Seq<char>>, seen: Seq<Seq<char>>)
    ensures
        forall|x: Seq<char>|
            cands.contains(x) ==> seen.contains(x) || fresh_paths(cands, seen).contains(x),
        forall|x: Seq<char>| fresh_paths(cands, seen).contains(x) ==> !seen.contains(x),
    decreases cands.len(),
{
    if cands.len() > 0 {
        let rest = cands.drop_first();
        if seen.contains(cands[0]) {
            lemma_fresh_paths_cover(rest, seen);
            assert forall|x: Seq<char>| cands.contains(x) implies seen.contains(x)
                || fresh_paths(cands, seen).contains(x) by {
                if x != cands[0] {
                    let k = choose|k: int| 0 <= k < cands.len() && cands[k] == x;
                    assert(rest[k - 1] == x);
                }
            }
        } else {
            let seen2 = seen.push(cands[0]);
            lemma_fresh_paths_cover(rest, seen2);
            let f = fresh_paths(cands, seen);
            assert(f == seq![cands[0]] + fresh_paths(rest, seen2));
            assert(f[0] == cands[0]);
            assert forall|x: Seq<char>| cands.contains(x) implies seen.contains(x) || f.contains(x) by {
                if x != cands[0] {
                    let k = choose|k: int| 0 <= k < cands.len() && cands[k] == x;
                    assert(rest[k - 1] == x);
                    if fresh_paths(rest, seen2).contains(x) {
                        let m = choose|m: int|
                            0 <= m < fresh_paths(rest, seen2).len() && fresh_paths(rest, seen2)[m]
                                == x;
                        assert(f[m + 1] == x);
                    } else {
                        assert(seen2.contains(x));
                        let m = choose|m: int| 0 <= m < seen2.len() && seen2[m] == x;
                        assert(seen[m] == x);
                    }
                }
            }
            assert forall|x: Seq<char>| f.contains(x) implies !seen.contains(x) by {
                let m = choose|m: int| 0 <= m < f.len() && f[m] == x;
                if m > 0 {
                    assert(fresh_paths(rest, seen2)[m - 1] == x);
                    assert(fresh_paths(rest, seen2).contains(x));
                    if seen.contains(x) {
                        let n = choose|n: int| 0 <= n < seen.len() && seen[n] == x;
                        assert(seen2[n] == x);
                        assert(seen2.contains(x));
                    }
                }
            }
        }
    }
}

/// Paths that an arrival must not be added over: the reserved track (shown
/// or not), everything pending, the playing track and the engine's runway.
pub open spec fn excluded_paths(
    q: QueueStateView,
    now_playing: Option<Seq<char>>,
    in_flight: Seq<ItemView>,
) -> Seq<Seq<char>> {
    (match q.reserved {
        Some(r) => seq![r.path],
        None => Seq::empty(),
    }) + item_paths(q.pending) + (match now_playing {
        Some(p) => seq![p],
        None => Seq::empty(),
    }) + item_paths(in_flight)
}

/// The arrivals that [`prepend_pending_filtered`] adds, in order.
pub open spec fn arrivals_added(
    q: QueueStateView,
    cands: Seq<Seq<char>>,
    now_playing: Option<Seq<char>>,
    in_flight: Seq<ItemView>,
) -> Seq<Seq<char>> {
    fresh_paths(cands, excluded_paths(q, now_playing, in_flight))
}

/// The queue after [`prepend_pending_filtered`].
pub open spec fn prepend_result(
    q: QueueStateView,
    cands: Seq<Seq<char>>,
    now_playing: Option<Seq<char>>,
    in_flight: Seq<ItemView>,
) -> QueueStateView {
    let added = arrivals_added(q, cands, now_playing, in_flight);
    let k = manual_prefix_len(q.pending) as int;
    QueueStateView {
        pending: q.pending.take(k) + manual_views(added) + q.pending.skip(k),
        reserved: q.reserved,
        reserved_is_next: q.reserved_is_next,
    }
}

pub fn contains_path(v: &Vec<String>, p: &String) -> (r: bool)
    ensures
        r == paths_view(v@).contains(p@),
{
    let mut i: usize = 0;
    while i < v.len()
        invariant
            i <= v.len(),
            forall|j: int| 0 <= j < i ==> v@[j]@ != p@,
        decreases v.len() - i,
    {
        if v[i] == *p {
            assert(paths_view(v@)[i as int] == p@);
            return true;
        }
        i = i + 1;
    }
    assert(!paths_view(v@).contains(p@)) by {
        if paths_view(v@).contains(p@) {
            let k = choose|k: int| 0 <= k < paths_view(v@).len() && paths_view(v@)[k] == p@;
            assert(v@[k]@ == p@);
        }
    }
    false
}

fn push_item_paths(v: &mut Vec<String>, items: &[QueueItem])
    ensures
        paths_view(final(v)@) == paths_view(old(v)@) + item_paths(items_view(items@)),
{
    let mut i: usize = 0;
    while i < items.len()
        invariant
            i <= items.len(),
            paths_view(v@) =~= paths_view(old(v)@) + item_paths(items_view(items@.take(i as int))),
        decreases items.len() - i,
    {
        let ghost before = v@;
        v.push(items[i].path.clone());
        proof {
            assert(items@.take(i as int + 1) =~= items@.take(i as int).push(items@[i as int]));
            assert(paths_view(v@) =~= paths_view(before).push(items@[i as int].path@));
            assert(item_paths(items_view(items@.take(i as int + 1))) =~= item_paths(
                items_view(items@.take(i as int)),
            ).push(items@[i as int].path@));
        }
        i = i + 1;
    }
    assert(items@.take(items.len() as int) =~= items@);
}

/// Judge and insert in one step: keep `candidates` order, add each path that
/// is not reserved, pending, playing or in flight (and not a repeat) as a
/// manual item behind the existing manual items, and leave `reserved` alone.
/// Returns how many paths were added.
pub fn prepend_pending_filtered(
    queue: &mut QueueState,
    candidates: &[String],
    now_playing: Option<&String>,
    in_flight: &[QueueItem],
) -> (n: usize)
    requires
        old(queue).pending.len() + candidates.len() <= usize::MAX,
    ensures
        ({
            let np = match now_playing {
                Some(p) => Some(p@),
                None => None,
            };
            &&& n == arrivals_added(old(queue)@, paths_view(candidates@), np, items_view(in_flight@)).len()
            &&& final(queue)@ == prepend_result(old(queue)@, paths_view(candidates@), np, items_view(in_flight@))
        }),
{
    let ghost np = match now_playing {
        Some(p) => Some(p@),
        None => None,
    };
    let ghost excl0 = excluded_paths(queue@, np, items_view(in_flight@));
    let mut excluded: Vec<String> = Vec::new();
    let ghost part1 = match queue@.reserved {
        Some(r) => seq![r.path],
        None => Seq::<Seq<char>>::empty(),
    };
    match &queue.reserved {
        Some(r) => excluded.push(r.path.clone()),
        None => {},
    }
    assert(paths_view(excluded@) =~= part1);
    let pending_items = copy_queued(&queue.pending);
    push_item_paths(&mut excluded, pending_items.as_slice());
    let ghost part3 = match np {
        Some(p) => seq![p],
        None => Seq::<Seq<char>>::empty(),
    };
    let ghost before3 = paths_view(excluded@);
    match now_playing {
        Some(p) => excluded.push(p.clone()),
        None => {},
    }
    assert(paths_view(excluded@) =~= before3 + part3);
    push_item_paths(&mut excluded, in_flight);
    assert(paths_view(excluded@) =~= excl0);
    let ghost cands = paths_view(candidates@);
    let mut to_add: Vec<String> = Vec::new();
    let mut i: usize = 0;
    assert(cands.subrange(0, cands.len() as int) =~= cands);
    assert(excl0 + paths_view(to_add@) =~= excl0);
    assert(paths_view(to_add@) + fresh_paths(cands, excl0) =~= fresh_paths(cands, excl0));
    while i < candidates.len()
        invariant
            i <= candidates.len(),
            cands == paths_view(candidates@),
            to_add.len() <= i,
            paths_view(excluded@) == excl0 + paths_view(to_add@),
            fresh_paths(cands, excl0) == paths_view(to_add@) + fresh_paths(
                cands.subrange(i as int, cands.len() as int),
                excl0 + paths_view(to_add@),
            ),
        decreases candidates.len() - i,
    {
        let c = &candidates[i];
        let ghost rest = cands.subrange(i as int, cands.len() as int);
        assert(rest[0] == c@);
        assert(rest.drop_first() =~= cands.subrange(i as int + 1, cands.len() as int));
        if !contains_path(&excluded, c) {
            let ghost before = to_add@;
            excluded.push(c.clone());
            to_add.push(c.clone());
            assert(paths_view(to_add@) =~= paths_view(before).push(c@));
            assert(paths_view(excluded@) =~= excl0 + paths_view(to_add@));
            assert((excl0 + paths_view(before)).push(c@) =~= excl0 + paths_view(to_add@));
            assert(paths_view(to_add@) + fresh_paths(
                cands.subrange(i as int + 1, cands.len() as int),
                excl0 + paths_view(to_add@),
            ) =~= paths_view(before) + (seq![c@] + fresh_paths(
                cands.subrange(i as int + 1, cands.len() as int),
                excl0 + paths_view(to_add@),
            )));
        }
        i = i + 1;
    }
    assert(cands.subrange(candidates.len() as int, cands.len() as int) =~= Seq::<Seq<char>>::empty());
    assert(paths_view(to_add@) =~= fresh_paths(cands, excl0));
    let n = to_add.len();
    let mut at = first_automatic_queued(&queue.pending);
    let ghost k = at as int;
    let ghost old_pending = queue@.pending;
    proof {
        lemma_manual_prefix_len(old_pending);
    }
    let mut j: usize = 0;
    while j < n
        invariant
            j <= n,
            n == to_add.len(),
            0 <= k <= old_pending.len(),
            at == k + j,
            n <= candidates.len(),
            queue.pending.len() == old_pending.len() + j,
            old_pending.len() + candidates.len() <= usize::MAX,
            queue@.pending == old_pending.take(k) + manual_views(paths_view(to_add@).take(j as int))
                + old_pending.skip(k),
            queue@.reserved == old(queue)@.reserved,
            queue@.reserved_is_next == old(queue)@.reserved_is_next,
        decreases n - j,
    {
        let ghost before = queue@.pending;
        insert_item(&mut queue.pending, at, QueueItem::manual(to_add[j].clone()));
        proof {
            let t = paths_view(to_add@);
            assert(t.take(j as int + 1) =~= t.take(j as int).push(t[j as int]));
            assert(manual_views(t.take(j as int + 1)) =~= manual_views(t.take(j as int)).push(
                manual_view(t[j as int]),
            ));
            assert(queue@.pending =~= old_pending.take(k) + manual_views(t.take(j as int + 1))
                + old_pending.skip(k));
        }
        at = at + 1;
        j = j + 1;
    }
    assert(paths_view(to_add@).take(n as int) =~= paths_view(to_add@));
    n
}


/// An edit to the displayed list (`[displayed reserved?] ++ pending`), by
/// 0-based displayed index.
#[derive(Clone, Copy, Debug, PartialEq, Eq, Structural)]
pub enum QueueEdit {
    /// Move the item at `from` to `to`.
    Move { from: usize, to: usize },
    /// Remove the item at `index`.
    Remove { index: usize },
}

/// Why [`edit_displayed`] refused an edit.
#[derive(Clone, Copy, Debug, PartialEq, Eq, Structural)]
pub enum EditError {
    /// The edit reached into the reserved slot, but `revoke` had nothing to
    /// take back.
    TooLate,
    /// The item at the edit's subject index is not the expected one.
    Stale,
    /// An index is outside the displayed list.
    OutOfRange,
    /// A move would cross the manual/automatic priority boundary.
    OriginBoundary,
}

impl EditError {
    /// The machine-readable name the frontend matches on.
    pub fn as_str(&self) -> (r: &'static str)
        ensures
            r@ == edit_error_name(*self),
    {
        match self {
            EditError::TooLate => "too_late",
            EditError::Stale => "stale",
            EditError::OutOfRange => "out_of_range",
            EditError::OriginBoundary => "origin_boundary",
        }
    }
}

pub open spec fn edit_error_name(e: EditError) -> Seq<char> {
    match e {
        EditError::TooLate => "too_late"@,
        EditError::Stale => "stale"@,
        EditError::OutOfRange => "out_of_range"@,
        EditError::OriginBoundary => "origin_boundary"@,
    }
}

/// Take the element at `from` out and put it back at `to`.
pub open spec fn move_seq<A>(s: Seq<A>, from: int, to: int) -> Seq<A> {
    s.remove(from).insert(to, s[from])
}

pub open spec fn edit_in_range(e: QueueEdit, len: int) -> bool {
    match e {
        QueueEdit::Move { from, to } => from < len && to < len,
        QueueEdit::Remove { index } => index < len,
    }
}

/// The index whose item must match the caller's expectation.
pub open spec fn edit_subject(e: QueueEdit) -> int {
    match e {
        QueueEdit::Move { from, .. } => from as int,
        QueueEdit::Remove { index } => index as int,
    }
}

pub open spec fn is_noop_move(e: QueueEdit) -> bool {
    e matches QueueEdit::Move { from, to } && from == to
}

/// Some item between `from` and `to` (inclusive) has another origin than the
/// moved one.
pub open spec fn crosses_boundary(d: Seq<ItemView>, from: int, to: int) -> bool {
    let lo = if from < to { from } else { to };
    let hi = if from < to { to } else { from };
    exists|k: int| lo <= k <= hi && d[k].origin != d[from].origin
}

/// The error [`edit_displayed`] reports before it considers revoking.
pub open spec fn edit_precheck(q: QueueStateView, e: QueueEdit, expect: ItemView) -> Option<
    EditError,
> {
    let d = q.displayed();
    if !edit_in_range(e, d.len() as int) {
        Some(EditError::OutOfRange)
    } else if d[edit_subject(e)] != expect {
        Some(EditError::Stale)
    } else if is_noop_move(e) {
        None
    } else if (e matches QueueEdit::Move { from, to } && crosses_boundary(
        d,
        from as int,
        to as int,
    )) {
        Some(EditError::OriginBoundary)
    } else {
        None
    }
}

/// The edit reaches into the next-up reserved slot.
pub open spec fn touches_reserved(q: QueueStateView, e: QueueEdit) -> bool {
    q.has_displayed_reserved() && match e {
        QueueEdit::Move { from, to } => from == 0 || to == 0,
        QueueEdit::Remove { index } => index == 0,
    }
}

/// Apply `e` to `s`, whose index 0 is displayed index `shift`.
pub open spec fn apply_edit(s: Seq<ItemView>, e: QueueEdit, shift: int) -> Seq<ItemView> {
    match e {
        QueueEdit::Move { from, to } => move_seq(s, from - shift, to - shift),
        QueueEdit::Remove { index } => s.remove(index - shift),
    }
}

/// The displayed item at `i`.
fn displayed_at(queue: &QueueState, i: usize) -> (r: &QueueItem)
    requires
        i < queue@.displayed().len(),
    ensures
        r@ == queue@.displayed()[i as int],
{
    match &queue.reserved {
        Some(item) if queue.reserved_is_next => {
            if i == 0 {
                item
            } else {
                &queue.pending[i - 1]
            }
        },
        _ => &queue.pending[i],
    }
}

/// Apply `edit` to the displayed list, first folding the reserved slot back
/// into `pending` (through `revoke`) when the edit reaches into it.
///
/// `expect` is checked before `revoke` runs, so a stale request never gives
/// up the engine's prepared track. In every error case the queue is left
/// unchanged.
pub fn edit_displayed<F: FnOnce() -> Option<String>>(
    queue: &mut QueueState,
    edit: QueueEdit,
    expect: &QueueItem,
    revoke: F,
) -> (r: Result<(), EditError>)
    requires
        call_requires(revoke, ()),
        old(queue).pending.len() < usize::MAX,
    ensures
        ({
            let q = old(queue)@;
            let pre = edit_precheck(q, edit, expect@);
            let shift: int = if q.has_displayed_reserved() {
                1
            } else {
                0
            };
            &&& pre is Some ==> r == Err::<(), EditError>(pre->0)
            &&& pre is None && !(touches_reserved(q, edit) && !is_noop_move(edit)) ==> r is Ok
            &&& pre is None && r is Err ==> r == Err::<(), EditError>(EditError::TooLate) && call_ensures(
                revoke,
                (),
                None,
            )
            &&& r is Err ==> final(queue)@ == q
            &&& r == Err::<(), EditError>(EditError::TooLate) ==> pre is None && touches_reserved(
                q,
                edit,
            ) && !is_noop_move(edit) && call_ensures(revoke, (), None)
            &&& r is Ok && is_noop_move(edit) ==> final(queue)@ == q
            &&& r is Ok && !is_noop_move(edit) && !touches_reserved(q, edit) ==> {
                &&& final(queue)@.pending == apply_edit(q.pending, edit, shift)
                &&& final(queue)@.reserved == q.reserved
                &&& final(queue)@.reserved_is_next == q.reserved_is_next
            }
            &&& r is Ok && !is_noop_move(edit) && touches_reserved(q, edit) ==> {
                &&& final(queue)@.reserved is None
                &&& !final(queue)@.reserved_is_next
                &&& exists|path: String|
                    call_ensures(revoke, (), Some(path)) && final(queue)@.pending == apply_edit(
                        seq![ItemView { path: path@, origin: q.reserved->0.origin }] + q.pending,
                        edit,
                        0,
                    )
            }
        }),
{
    let ghost q0 = queue@;
    let has_reserved = queue.reserved.is_some() && queue.reserved_is_next;
    let len = if has_reserved {
        queue.pending.len() + 1
    } else {
        queue.pending.len()
    };
    assert(len == q0.displayed().len());
    let subject = match edit {
        QueueEdit::Move { from, to } => {
            if from >= len || to >= len {
                return Err(EditError::OutOfRange);
            }
            from
        },
        QueueEdit::Remove { index } => {
            if index >= len {
                return Err(EditError::OutOfRange);
            }
            index
        },
    };
    if !displayed_at(queue, subject).same_as(expect) {
        return Err(EditError::Stale);
    }
    if let QueueEdit::Move { from, to } = edit {
        if from == to {
            return Ok(());
        }
        let origin = displayed_at(queue, from).origin;
        let (start, end) = if from < to {
            (from, to)
        } else {
            (to, from)
        };
        let mut k = start;
        while k <= end
            invariant
                start <= k <= end + 1,
                end < len,
                len == q0.displayed().len(),
                queue@ == q0,
                origin == q0.displayed()[from as int].origin,
                from < len,
                to < len,
                from != to,
                edit == (QueueEdit::Move { from, to }),
                q0.displayed()[from as int] == expect@,
                from < to ==> start == from && end == to,
                from >= to ==> start == to && end == from,
                forall|j: int| start <= j < k ==> q0.displayed()[j].origin == origin,
            decreases end + 1 - k,
        {
            if displayed_at(queue, k).origin != origin {
                assert(q0.displayed()[k as int].origin != q0.displayed()[from as int].origin);
                assert(crosses_boundary(q0.displayed(), from as int, to as int));
                assert(edit_precheck(q0, edit, expect@) == Some(EditError::OriginBoundary));
                return Err(EditError::OriginBoundary);
            }
            k = k + 1;
        }
        assert(!crosses_boundary(q0.displayed(), from as int, to as int));
    }
    let touches = has_reserved && match edit {
        QueueEdit::Move { from, to } => from == 0 || to == 0,
        QueueEdit::Remove { index } => index == 0,
    };
    if touches {
        match revoke() {
            Some(path) => {
                let origin = match &queue.reserved {
                    Some(item) => item.origin,
                    None => QueueOrigin::Automatic,
                };
                let ghost p = path;
                queue.reserved = None;
                queue.reserved_is_next = false;
                insert_item(&mut queue.pending, 0, QueueItem { path, origin });
                assert(queue@.pending =~= seq![ItemView { path: p@, origin: q0.reserved->0.origin }]
                    + q0.pending);
                assert(call_ensures(revoke, (), Some(p)));
            },
            None => {
                assert(call_ensures(revoke, (), None));
                return Err(EditError::TooLate);
            },
        }
    }
    let shift: usize = if has_reserved && !touches {
        1
    } else {
        0
    };
    let ghost base = queue@.pending;
    assert(base.len() == len - shift);
    assert(queue.pending.len() == base.len());
    match edit {
        QueueEdit::Move { from, to } => {
            assert(to < len);
            assert(shift == 1 ==> to >= 1);
            let item = remove_item(&mut queue.pending, from - shift);
            assert(items_view(queue.pending@).len() == queue.pending.len());
            insert_item(&mut queue.pending, to - shift, item);
            assert(queue@.pending =~= move_seq(base, from - shift, to - shift));
        },
        QueueEdit::Remove { index } => {
            remove_item(&mut queue.pending, index - shift);
        },
    }
    Ok(())
}


/// What to play once the pending queue runs dry: keep cycling through the
/// folder's tracks in order, wrapping back to the start.
#[derive(Debug)]
pub enum DrainPolicy {
    ContinueFolder { tracks: Vec<String>, pos: usize },
}

impl DrainPolicy {
    pub open spec fn tracks(&self) -> Seq<String> {
        match self {
            DrainPolicy::ContinueFolder { tracks, .. } => tracks@,
        }
    }

    /// The next 0-based folder index to consider.
    pub open spec fn pos(&self) -> int {
        match self {
            DrainPolicy::ContinueFolder { pos, .. } => *pos as int,
        }
    }
}

/// `i` wrapped once into `0..n`.
pub open spec fn wrap(i: int, n: int) -> int {
    if i < n {
        i
    } else {
        i - n
    }
}

/// How many steps a cursor starting at `start` takes to reach `i` in a
/// folder of `n` tracks.
pub open spec fn dist(i: int, start: int, n: int) -> int {
    if i >= start {
        i - start
    } else {
        i + n - start
    }
}

/// Where the folder cursor starts: `pos`, or 0 when it is past the end.
pub open spec fn folder_start(pos: int, n: int) -> int {
    if pos >= n {
        0
    } else {
        pos
    }
}

/// The folder pick that starts at `pos` (wrapped to 0 when past the end) and
/// takes the first track `skip` does not reject, advancing the cursor past
/// every track it considered. `r` is the chosen path; `None` when the folder
/// is empty or every track was rejected in one full cycle.
pub open spec fn folder_pick<F: Fn(&String) -> bool>(
    tracks: Seq<String>,
    pos: int,
    new_pos: int,
    r: Option<Seq<char>>,
    skip: F,
) -> bool {
    let n = tracks.len() as int;
    let start = folder_start(pos, n);
    if n == 0 {
        r is None && new_pos == pos
    } else {
        match r {
            None => new_pos == start && forall|i: int|
                0 <= i < n ==> call_ensures(skip, (&#[trigger] tracks[i],), true),
            Some(p) => exists|c: int|
                0 <= c < n && p == tracks[c]@ && new_pos == wrap(c + 1, n) && call_ensures(
                    skip,
                    (&tracks[c],),
                    false,
                ) && forall|i: int|
                    0 <= i < n && dist(i, start, n) < dist(c, start, n) ==> call_ensures(
                        skip,
                        (&#[trigger] tracks[i],),
                        true,
                    ),
        }
    }
}

pub open spec fn opt_path_view(o: Option<String>) -> Option<Seq<char>> {
    match o {
        Some(p) => Some(p@),
        None => None,
    }
}

/// Next folder path that `skip` does not reject, from a cursor at `pos`.
/// Returns the chosen path and the new cursor.
fn pick_from<F: Fn(&String) -> bool>(tracks: &Vec<String>, pos: usize, skip: &F) -> (r: (
    Option<String>,
    usize,
))
    requires
        forall|p: &String| call_requires(*skip, (p,)),
    ensures
        folder_pick(tracks@, pos as int, r.1 as int, opt_path_view(r.0), *skip),
{
    let n = tracks.len();
    if n == 0 {
        return (None, pos);
    }
    let start = if pos >= n {
        0
    } else {
        pos
    };
    let ghost t = tracks@;
    let mut at = start;
    let mut k: usize = 0;
    loop
        invariant
            n == tracks.len(),
            t == tracks@,
            n > 0,
            start < n,
            start == folder_start(pos as int, n as int),
            k < n,
            at == wrap(start + k, n as int),
            forall|i: int|
                0 <= i < n && dist(i, start as int, n as int) < k ==> call_ensures(
                    *skip,
                    (&#[trigger] t[i],),
                    true,
                ),
            forall|p: &String| call_requires(*skip, (p,)),
        decreases n - k,
    {
        let rejected = skip(&tracks[at]);
        let next_at = if at + 1 == n {
            0
        } else {
            at + 1
        };
        if !rejected {
            let path = tracks[at].clone();
            assert(dist(at as int, start as int, n as int) == k);
            return (Some(path), next_at);
        }
        if next_at == start {
            assert(k + 1 == n);
            assert forall|i: int| 0 <= i < n implies call_ensures(*skip, (&#[trigger] t[i],), true) by {
                assert(dist(i, start as int, n as int) < n);
                if dist(i, start as int, n as int) == k {
                    assert(i == at);
                }
            }
            return (None, next_at);
        }
        at = next_at;
        k = k + 1;
    }
}

/// Next folder path that `skip` does not reject.
pub fn pick_folder_track<F: Fn(&String) -> bool>(policy: &mut DrainPolicy, skip: &F) -> (r: Option<
    String,
>)
    requires
        forall|p: &String| call_requires(*skip, (p,)),
    ensures
        final(policy).tracks() == old(policy).tracks(),
        folder_pick(old(policy).tracks(), old(policy).pos(), final(policy).pos(), opt_path_view(r), *skip),
{
    match policy {
        DrainPolicy::ContinueFolder { tracks, pos } => {
            let (r, p) = pick_from(tracks, *pos, skip);
            *pos = p;
            r
        },
    }
}

/// One hand-off from [`HostSource::next_with_skip`]: the engine index, the
/// path, and what the host's observers are told about it.
#[derive(Debug)]
pub struct Handoff {
    /// This source's own call count when the track was handed out.
    pub index: usize,
    /// The item handed to the engine.
    pub item: QueueItem,
    /// What is left of the pending queue after taking the track from it;
    /// `None` when the folder supplied the track.
    pub remaining: Option<Vec<QueueItem>>,
    /// The folder cursor after a folder pick; `None` for pending pops.
    pub folder_pos: Option<usize>,
}

/// Track source backed by a [`QueueState`]: pending items first, then the
/// folder fallback.
#[derive(Debug)]
pub struct HostSource {
    pub policy: DrainPolicy,
    /// How many tracks this source has handed out.
    pub calls: usize,
}

impl HostSource {
    pub open spec fn call_count(&self) -> int {
        self.calls as int
    }

    pub fn new(policy: DrainPolicy) -> (r: HostSource)
        ensures
            r.policy == policy,
            r.call_count() == 0,
    {
        HostSource { policy, calls: 0 }
    }

    /// Hand out the next track: the head of `pending` if there is one, else
    /// the next folder track that `skip` does not reject. Returns `None` only
    /// when both are exhausted, and then clears `reserved`.
    pub fn next_with_skip<F: Fn(&String) -> bool>(
        &mut self,
        queue: &mut QueueState,
        skip: &F,
    ) -> (r: Option<Handoff>)
        requires
            forall|p: &String| call_requires(*skip, (p,)),
            old(self).call_count() < usize::MAX,
        ensures
            ({
                let calls = old(self).call_count();
                let q = old(queue)@;
                if q.pending.len() > 0 {
                    &&& r matches Some(h) && {
                        &&& h.index == calls
                        &&& h.item@ == q.pending[0]
                        &&& h.remaining matches Some(rest) && items_view(rest@)
                            == q.pending.drop_first()
                        &&& h.folder_pos is None
                    }
                    &&& final(queue)@.pending == q.pending.drop_first()
                    &&& final(queue)@.reserved == Some(q.pending[0])
                    &&& final(queue)@.reserved_is_next == (calls > 0)
                    &&& final(self).call_count() == calls + 1
                    &&& final(self).policy == old(self).policy
                } else {
                    &&& final(self).policy.tracks() == old(self).policy.tracks()
                    &&& folder_pick(
                        old(self).policy.tracks(),
                        old(self).policy.pos(),
                        final(self).policy.pos(),
                        match r {
                            Some(h) => Some(h.item.path@),
                            None => None,
                        },
                        *skip,
                    )
                    &&& final(queue)@.pending == q.pending
                    &&& match r {
                        None => {
                            &&& final(queue)@.reserved is None
                            &&& !final(queue)@.reserved_is_next
                            &&& final(self).call_count() == calls
                        },
                        Some(h) => {
                            &&& h.index == calls
                            &&& h.item.origin == QueueOrigin::Automatic
                            &&& h.remaining is None
                            &&& h.folder_pos == Some(final(self).policy.pos() as usize)
                            &&& final(queue)@.reserved == Some(h.item@)
                            &&& final(queue)@.reserved_is_next == (calls > 0)
                            &&& final(self).call_count() == calls + 1
                        },
                    }
                }
            }),
    {
        if queue.pending.len() > 0 {
            let ghost before = queue@.pending;
            let item = remove_item(&mut queue.pending, 0);
            assert(before.remove(0) =~= before.drop_first());
            queue.reserved = Some(item.duplicate());
            queue.reserved_is_next = self.calls > 0;
            let remaining = copy_queued(&queue.pending);
            let index = self.calls;
            self.calls = self.calls + 1;
            return Some(Handoff { index, item, remaining: Some(remaining), folder_pos: None });
        }
        match pick_folder_track(&mut self.policy, skip) {
            Some(path) => {
                let DrainPolicy::ContinueFolder { pos, .. } = &self.policy;
                let folder_pos = *pos;
                let item = QueueItem::automatic(path);
                queue.reserved = Some(item.duplicate());
                queue.reserved_is_next = self.calls > 0;
                let index = self.calls;
                self.calls = self.calls + 1;
                Some(Handoff { index, item, remaining: None, folder_pos: Some(folder_pos) })
            },
            None => {
                queue.reserved = None;
                queue.reserved_is_next = false;
                None
            },
        }
    }

    /// [`Self::next_with_skip`] without folder filtering, reduced to the
    /// `(index, path)` pair the engine consumes.
    pub fn next(&mut self, queue: &mut QueueState) -> (r: Option<(usize, String)>)
        requires
            old(self).call_count() < usize::MAX,
        ensures
            ({
                let calls = old(self).call_count();
                let q = old(queue)@;
                let tracks = old(self).policy.tracks();
                let n = tracks.len() as int;
                let start = folder_start(old(self).policy.pos(), n);
                if q.pending.len() > 0 {
                    &&& r matches Some(x) && x.0 == calls && x.1@ == q.pending[0].path
                    &&& final(queue)@.pending == q.pending.drop_first()
                    &&& final(queue)@.reserved == Some(q.pending[0])
                    &&& final(queue)@.reserved_is_next == (calls > 0)
                    &&& final(self).call_count() == calls + 1
                    &&& final(self).policy == old(self).policy
                } else if n == 0 {
                    &&& r is None
                    &&& final(queue)@.pending == q.pending
                    &&& final(queue)@.reserved is None
                    &&& !final(queue)@.reserved_is_next
                    &&& final(self).call_count() == calls
                } else {
                    &&& r matches Some(x) && x.0 == calls && x.1@ == tracks[start]@
                    &&& final(queue)@.pending == q.pending
                    &&& final(queue)@.reserved == Some(automatic_view(tracks[start]@))
                    &&& final(queue)@.reserved_is_next == (calls > 0)
                    &&& final(self).policy.tracks() == tracks
                    &&& final(self).policy.pos() == wrap(start + 1, n)
                    &&& final(self).call_count() == calls + 1
                }
            }),
    {
        let keep = |p: &String| -> (r: bool)
            ensures
                !r,
            { false };
        let ghost tracks = self.policy.tracks();
        let ghost n = tracks.len() as int;
        let ghost start = folder_start(self.policy.pos(), n);
        let ghost q = queue@;
        let r = self.next_with_skip(queue, &keep);
        proof {
            if q.pending.len() == 0 && n > 0 {
                if r is None {
                    assert(call_ensures(keep, (&tracks[start],), true));
                } else {
                    let c = choose|c: int|
                        0 <= c < n && r->0.item.path@ == tracks[c]@ && self.policy.pos() == wrap(
                            c + 1,
                            n,
                        ) && call_ensures(keep, (&tracks[c],), false) && forall|i: int|
                            0 <= i < n && dist(i, start, n) < dist(c, start, n) ==> call_ensures(
                                keep,
                                (&#[trigger] tracks[i],),
                                true,
                            );
                    if c != start {
                        assert(dist(start, start, n) < dist(c, start, n));
                        assert(call_ensures(keep, (&tracks[start],), true));
                    }
                }
            }
        }
        match r {
            Some(h) => Some((h.index, h.item.path)),
            None => None,
        }
    }
}


/// With nothing new to add, nothing is added.
pub proof fn lemma_fresh_paths_empty(cands: Seq<Seq<char>>, seen: Seq<Seq<char>>)
    requires
        forall|i: int| 0 <= i < cands.len() ==> seen.contains(#[trigger] cands[i]),
    ensures
        fresh_paths(cands, seen) == Seq::<Seq<char>>::empty(),
    decreases cands.len(),
{
    if cands.len() > 0 {
        assert(seen.contains(cands[0]));
        let rest = cands.drop_first();
        assert forall|i: int| 0 <= i < rest.len() implies seen.contains(#[trigger] rest[i]) by {
            assert(rest[i] == cands[i + 1]);
        }
        lemma_fresh_paths_empty(rest, seen);
    }
}

/// Adding arrivals is idempotent: a second call with the same candidates,
/// playing track and runway adds nothing and leaves the queue as it was.
pub proof fn lemma_prepend_idempotent(
    q: QueueStateView,
    cands: Seq<Seq<char>>,
    now_playing: Option<Seq<char>>,
    in_flight: Seq<ItemView>,
)
    ensures
        arrivals_added(prepend_result(q, cands, now_playing, in_flight), cands, now_playing, in_flight)
            == Seq::<Seq<char>>::empty(),
        prepend_result(prepend_result(q, cands, now_playing, in_flight), cands, now_playing, in_flight)
            == prepend_result(q, cands, now_playing, in_flight),
{
    let excl0 = excluded_paths(q, now_playing, in_flight);
    let added = fresh_paths(cands, excl0);
    let q1 = prepend_result(q, cands, now_playing, in_flight);
    let excl1 = excluded_paths(q1, now_playing, in_flight);
    let k = manual_prefix_len(q.pending) as int;
    lemma_manual_prefix_len(q.pending);
    lemma_fresh_paths_cover(cands, excl0);
    let r_part = match q.reserved {
        Some(r) => seq![r.path],
        None => Seq::<Seq<char>>::empty(),
    };
    let np_part = match now_playing {
        Some(p) => seq![p],
        None => Seq::<Seq<char>>::empty(),
    };
    assert forall|x: Seq<char>| excl0.contains(x) implies excl1.contains(x) by {
        let i = choose|i: int| 0 <= i < excl0.len() && excl0[i] == x;
        let lr = r_part.len() as int;
        let lp = q.pending.len() as int;
        let ln = np_part.len() as int;
        let lp1 = q1.pending.len() as int;
        assert(excl0 == r_part + item_paths(q.pending) + np_part + item_paths(in_flight));
        assert(excl1 == r_part + item_paths(q1.pending) + np_part + item_paths(in_flight));
        if i < lr {
            assert(excl1[i] == x);
        } else if i < lr + lp {
            let j = i - lr;
            assert(item_paths(q.pending)[j] == x);
            if j < k {
                assert(q1.pending[j] == q.pending[j]);
                assert(excl1[lr + j] == x);
            } else {
                assert(q1.pending[j + added.len()] == q.pending[j]);
                assert(excl1[lr + j + added.len()] == x);
            }
        } else {
            assert(excl1[i + added.len()] == x);
        }
    }
    assert forall|x: Seq<char>| added.contains(x) implies excl1.contains(x) by {
        let i = choose|i: int| 0 <= i < added.len() && added[i] == x;
        let lr = r_part.len() as int;
        assert(excl1 == r_part + item_paths(q1.pending) + np_part + item_paths(in_flight));
        assert(q1.pending[k + i] == manual_view(x));
        assert(excl1[lr + k + i] == x);
    }
    assert forall|i: int| 0 <= i < cands.len() implies excl1.contains(#[trigger] cands[i]) by {
        assert(cands.contains(cands[i]));
    }
    lemma_fresh_paths_empty(cands, excl1);
    let k1 = manual_prefix_len(q1.pending) as int;
    lemma_manual_prefix_len(q1.pending);
    assert(manual_views(Seq::<Seq<char>>::empty()) =~= Seq::<ItemView>::empty());
    assert(q1.pending.take(k1) + manual_views(Seq::<Seq<char>>::empty()) + q1.pending.skip(k1)
        =~= q1.pending);
}

/// Inserting a manual item at the manual prefix keeps the queue partitioned
/// (all manual items ahead of all automatic ones), and so does inserting an
/// automatic item there.
pub proof fn lemma_insert_at_prefix_keeps_partition(s: Seq<ItemView>, item: ItemView)
    requires
        partitioned(s),
    ensures
        partitioned(s.insert(manual_prefix_len(s) as int, item)),
{
    lemma_manual_prefix_len(s);
    let k = manual_prefix_len(s) as int;
    let t = s.insert(k, item);
    assert forall|i: int, j: int|
        0 <= i < j < t.len() && t[i].origin == QueueOrigin::Automatic implies t[j].origin
        == QueueOrigin::Automatic by {
        if j > k {
            assert(t[j] == s[j - 1]);
            assert(k < s.len());
            assert(s[k].origin == QueueOrigin::Automatic);
            if k < j - 1 {
                assert(partitioned(s));
            }
        } else {
            // j <= k: t[i] with i < j <= k is a manual item of s
            assert(t[i] == s[i]);
        }
    }
}

/// Enqueueing keeps manual items ahead of automatic ones, places the new
/// item after every manual item already waiting, and keeps everything else
/// in order.
pub proof fn lemma_enqueue_fifo(s: Seq<ItemView>, path: Seq<char>)
    requires
        partitioned(s),
    ensures
        ({
            let t = s.insert(manual_prefix_len(s) as int, manual_view(path));
            let k = manual_prefix_len(s) as int;
            &&& partitioned(t)
            &&& t.len() == s.len() + 1
            &&& forall|j: int| 0 <= j < k ==> t[j] == s[j] && s[j].origin == QueueOrigin::Manual
            &&& t[k] == manual_view(path)
            &&& forall|j: int| k < j < t.len() ==> t[j] == s[j - 1] && s[j - 1].origin
                == QueueOrigin::Automatic
        }),
{
    lemma_manual_prefix_len(s);
    lemma_insert_at_prefix_keeps_partition(s, manual_view(path));
    let k = manual_prefix_len(s) as int;
    assert forall|i: int| k <= i < s.len() implies #[trigger] s[i].origin == QueueOrigin::Automatic by {
        if i > k {
            assert(s[k].origin == QueueOrigin::Automatic);
        }
    }
}

/// Arrivals keep the pending queue partitioned.
pub proof fn lemma_prepend_keeps_partition(
    q: QueueStateView,
    cands: Seq<Seq<char>>,
    now_playing: Option<Seq<char>>,
    in_flight: Seq<ItemView>,
)
    requires
        partitioned(q.pending),
    ensures
        partitioned(prepend_result(q, cands, now_playing, in_flight).pending),
{
    lemma_manual_prefix_len(q.pending);
    let k = manual_prefix_len(q.pending) as int;
    let added = arrivals_added(q, cands, now_playing, in_flight);
    let t = prepend_result(q, cands, now_playing, in_flight).pending;
    let m = added.len() as int;
    assert forall|i: int, j: int|
        0 <= i < j < t.len() && t[i].origin == QueueOrigin::Automatic implies t[j].origin
        == QueueOrigin::Automatic by {
        if i < k {
            assert(t[i] == q.pending[i]);
        } else if i < k + m {
            assert(t[i] == manual_view(added[i - k]));
        } else {
            assert(t[i] == q.pending[i - m]);
            assert(t[j] == q.pending[j - m]);
        }
    }
}

} // verus!
