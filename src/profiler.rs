use vstd::prelude::*;

verus! {

/// Accumulated statistics of one named region.
#[derive(Clone, Copy, Debug)]
pub struct ProfileAnchor {
    pub name: &'static str,
    /// Number of completed exits of the region.
    pub hit_count: u64,
    /// Sum of the byte counts given at each entry.
    pub byte_count: u64,
    /// Cycles spent in the region itself, nested regions taken away.
    pub tsc_elapsed_exclusive: u64,
    /// Cycles spent in the region, nested regions included.
    pub tsc_elapsed_inclusive: u64,
}

/// Whether some anchor carries the name `name`.
pub open spec fn has_name(anchors: Seq<ProfileAnchor>, name: Seq<char>) -> bool {
    exists|i: int| 0 <= i < anchors.len() && (#[trigger] anchors[i]).name@ == name
}

/// Position of the anchor named `name`, or -1 where there is none.
pub open spec fn index_of(anchors: Seq<ProfileAnchor>, name: Seq<char>) -> int {
    if has_name(anchors, name) {
        choose|i: int| 0 <= i < anchors.len() && (#[trigger] anchors[i]).name@ == name
    } else {
        -1
    }
}

/// No two anchors share a name.
pub open spec fn names_unique(anchors: Seq<ProfileAnchor>) -> bool {
    forall|i: int, j: int|
        0 <= i < anchors.len() && 0 <= j < anchors.len() && (#[trigger] anchors[i]).name@
            == (#[trigger] anchors[j]).name@ ==> i == j
}

/// Where names are unique, the anchor at `i` is the one `index_of` finds.
proof fn lemma_index_of(anchors: Seq<ProfileAnchor>, name: Seq<char>, i: int)
    requires
        names_unique(anchors),
        0 <= i < anchors.len(),
        anchors[i].name@ == name,
    ensures
        index_of(anchors, name) == i,
{
    assert(has_name(anchors, name));
}

/// Relies on `<str as PartialEq>::eq`: two string slices are equal exactly
/// when they hold the same characters.
#[verifier::external_body]
fn same_name(a: &str, b: &str) -> (r: bool)
    ensures
        r == (a@ == b@),
{
    a == b
}

/// A region that has been entered and not yet exited.
#[derive(Debug)]
pub struct ProfileBlock {
    pub name: &'static str,
    /// The innermost open region at entry, restored at exit.
    pub parent: Option<&'static str>,
    /// The anchor's inclusive cycles at entry.
    pub prev_tsc_elapsed_inclusive: u64,
    /// Cycle-counter reading at entry.
    pub start_tsc: u64,
}

/// The per-thread profiler state.
pub struct Profiler {
    /// Cycle-counter reading at the start of the session.
    pub start_tsc: u64,
    /// Cycle-counter reading at the end of the session.
    pub end_tsc: u64,
    /// One anchor per region name, in the order the names were first entered.
    pub anchors: Vec<ProfileAnchor>,
    /// Name of the innermost open region.
    pub parent: Option<&'static str>,
    /// The open regions, outermost first.
    pub open: Ghost<Seq<ProfileBlock>>,
    /// Names of the regions that were ever entered while a region of the same
    /// name was open.
    pub nested_names: Ghost<Set<Seq<char>>>,
}

/// The anchor a first entry creates.
pub open spec fn fresh_anchor(name: &'static str, byte_count: u64) -> ProfileAnchor {
    ProfileAnchor {
        name,
        hit_count: 0,
        byte_count,
        tsc_elapsed_exclusive: 0,
        tsc_elapsed_inclusive: 0,
    }
}

/// The anchor with `byte_count` more bytes.
pub open spec fn with_bytes(a: ProfileAnchor, byte_count: u64) -> ProfileAnchor {
    ProfileAnchor { byte_count: (a.byte_count + byte_count) as u64, ..a }
}

/// The anchors after an entry of `name` with `byte_count` bytes.
pub open spec fn entered_anchors(
    anchors: Seq<ProfileAnchor>,
    name: &'static str,
    byte_count: u64,
) -> Seq<ProfileAnchor> {
    let i = index_of(anchors, name@);
    if i >= 0 {
        anchors.update(i, with_bytes(anchors[i], byte_count))
    } else {
        anchors.push(fresh_anchor(name, byte_count))
    }
}

/// Inclusive cycles recorded so far for `name` (zero for a name not seen yet).
pub open spec fn inclusive_of(anchors: Seq<ProfileAnchor>, name: Seq<char>) -> u64 {
    let i = index_of(anchors, name);
    if i >= 0 {
        anchors[i].tsc_elapsed_inclusive
    } else {
        0
    }
}

/// `a - b`, or zero where `b > a`.
pub open spec fn sat_sub(a: u64, b: u64) -> u64 {
    if a >= b {
        (a - b) as u64
    } else {
        0
    }
}

/// The parent anchor with a nested region's cycles taken from its exclusive time.
pub open spec fn charge_child(a: ProfileAnchor, elapsed: u64) -> ProfileAnchor {
    ProfileAnchor { tsc_elapsed_exclusive: sat_sub(a.tsc_elapsed_exclusive, elapsed), ..a }
}

/// The anchor after one of its regions exits.
pub open spec fn close_anchor(a: ProfileAnchor, prev_inclusive: u64, elapsed: u64) -> ProfileAnchor {
    ProfileAnchor {
        hit_count: (a.hit_count + 1) as u64,
        tsc_elapsed_exclusive: (a.tsc_elapsed_exclusive + elapsed) as u64,
        tsc_elapsed_inclusive: (prev_inclusive + elapsed) as u64,
        ..a
    }
}

/// The anchors after the parent of `block` has been charged.
pub open spec fn charged_anchors(anchors: Seq<ProfileAnchor>, block: ProfileBlock, elapsed: u64) -> Seq<
    ProfileAnchor,
> {
    match block.parent {
        Some(p) => {
            let j = index_of(anchors, p@);
            anchors.update(j, charge_child(anchors[j], elapsed))
        },
        None => anchors,
    }
}

/// The anchors after `block` exits, `elapsed` cycles after its entry.
pub open spec fn exited_anchors(anchors: Seq<ProfileAnchor>, block: ProfileBlock, elapsed: u64) -> Seq<
    ProfileAnchor,
> {
    let charged = charged_anchors(anchors, block, elapsed);
    let i = index_of(charged, block.name@);
    charged.update(i, close_anchor(charged[i], block.prev_tsc_elapsed_inclusive, elapsed))
}

/// Cycles between a block's entry and the reading `now` (zero where the counter went back).
pub open spec fn block_elapsed(block: ProfileBlock, now: u64) -> u64 {
    sat_sub(now, block.start_tsc)
}

/// The parent pointer names the innermost open region, each open region names
/// the one around it as its parent, and each open region has an anchor.
pub open spec fn chain_ok(
    anchors: Seq<ProfileAnchor>,
    open: Seq<ProfileBlock>,
    parent: Option<&'static str>,
) -> bool {
    &&& forall|k: int|
        0 <= k < open.len() ==> match (#[trigger] open[k]).parent {
            None => k == 0,
            Some(p) => k > 0 && p@ == open[k - 1].name@,
        }
    &&& open.len() == 0 <==> parent is None
    &&& open.len() > 0 ==> parent->0@ == open.last().name@
    &&& forall|k: int| 0 <= k < open.len() ==> has_name(anchors, (#[trigger] open[k]).name@)
}

/// The inclusive cycles of every anchor whose name is not in `nested` cover
/// its exclusive cycles.
pub open spec fn inclusive_covers_exclusive(anchors: Seq<ProfileAnchor>, nested: Set<Seq<char>>) -> bool {
    forall|i: int|
        0 <= i < anchors.len() && !nested.contains((#[trigger] anchors[i]).name@)
            ==> anchors[i].tsc_elapsed_exclusive <= anchors[i].tsc_elapsed_inclusive
}

/// Of the names not in `nested`, each names at most one open region, and the
/// exclusive cycles of that region's anchor stay within what its inclusive
/// cycles were at entry.
pub open spec fn open_regions_bounded(
    anchors: Seq<ProfileAnchor>,
    open: Seq<ProfileBlock>,
    nested: Set<Seq<char>>,
) -> bool {
    &&& forall|k1: int, k2: int|
        0 <= k1 < open.len() && 0 <= k2 < open.len() && !nested.contains(open[k1].name@) && (
        #[trigger] open[k1]).name@ == (#[trigger] open[k2]).name@ ==> k1 == k2
    &&& forall|k: int|
        0 <= k < open.len() && !nested.contains((#[trigger] open[k]).name@) ==> anchors[index_of(
            anchors,
            open[k].name@,
        )].tsc_elapsed_exclusive <= open[k].prev_tsc_elapsed_inclusive
}

pub open spec fn state_wf(
    anchors: Seq<ProfileAnchor>,
    open: Seq<ProfileBlock>,
    parent: Option<&'static str>,
    nested: Set<Seq<char>>,
) -> bool {
    &&& names_unique(anchors)
    &&& chain_ok(anchors, open, parent)
    &&& inclusive_covers_exclusive(anchors, nested)
    &&& open_regions_bounded(anchors, open, nested)
}

/// The nested names after an entry of `name`: it joins them where a region of
/// that name is open.
pub open spec fn nested_after_entry(
    nested: Set<Seq<char>>,
    open: Seq<ProfileBlock>,
    name: Seq<char>,
) -> Set<Seq<char>> {
    if is_open(open, name) {
        nested.insert(name)
    } else {
        nested
    }
}

/// Whether some open region is named `name`.
pub open spec fn is_open(open: Seq<ProfileBlock>, name: Seq<char>) -> bool {
    exists|k: int| 0 <= k < open.len() && (#[trigger] open[k]).name@ == name
}

/// Entering a region keeps the state well formed.
proof fn lemma_entry(
    anchors: Seq<ProfileAnchor>,
    open: Seq<ProfileBlock>,
    parent: Option<&'static str>,
    nested: Set<Seq<char>>,
    block: ProfileBlock,
    byte_count: u64,
)
    requires
        state_wf(anchors, open, parent, nested),
        block.parent == parent,
        block.prev_tsc_elapsed_inclusive == inclusive_of(anchors, block.name@),
    ensures
        state_wf(
            entered_anchors(anchors, block.name, byte_count),
            open.push(block),
            Some(block.name),
            nested_after_entry(nested, open, block.name@),
        ),
{
    let name = block.name;
    let new_anchors = entered_anchors(anchors, name, byte_count);
    let new_open = open.push(block);
    let idx = if has_name(anchors, name@) {
        index_of(anchors, name@)
    } else {
        anchors.len() as int
    };
    assert(new_anchors[idx].name@ == name@);
    assert forall|i: int| 0 <= i < anchors.len() implies (#[trigger] new_anchors[i]).name@
        == anchors[i].name@ && (i != idx ==> new_anchors[i] == anchors[i]) by {}
    lemma_entered_names(anchors, name, byte_count);
    assert forall|m: Seq<char>| #[trigger] has_name(anchors, m) implies has_name(new_anchors, m)
        && index_of(new_anchors, m) == index_of(anchors, m) by {
        let k = index_of(anchors, m);
        assert(new_anchors[k].name@ == m);
        lemma_index_of(new_anchors, m, k);
    }
    lemma_index_of(new_anchors, name@, idx);
    assert forall|k: int| 0 <= k < new_open.len() implies has_name(
        new_anchors,
        (#[trigger] new_open[k]).name@,
    ) by {
        if k < open.len() {
            assert(new_open[k] == open[k]);
            assert(has_name(anchors, open[k].name@));
        }
    }
    assert forall|k: int|
        0 <= k < new_open.len() implies match (#[trigger] new_open[k]).parent {
        None => k == 0,
        Some(p) => k > 0 && p@ == new_open[k - 1].name@,
    } by {
        if k < open.len() {
            assert(new_open[k] == open[k]);
        }
    }
    let new_nested = nested_after_entry(nested, open, name@);
    {
        assert forall|i: int|
            0 <= i < new_anchors.len() && !new_nested.contains(
                (#[trigger] new_anchors[i]).name@,
            ) implies new_anchors[i].tsc_elapsed_exclusive
            <= new_anchors[i].tsc_elapsed_inclusive by {
            if i < anchors.len() {
                assert(!nested.contains(anchors[i].name@));
                assert(anchors[i].tsc_elapsed_exclusive <= anchors[i].tsc_elapsed_inclusive);
            }
        }
        assert forall|k1: int, k2: int|
            0 <= k1 < new_open.len() && 0 <= k2 < new_open.len() && !new_nested.contains(
                new_open[k1].name@,
            ) && (#[trigger] new_open[k1]).name@ == (#[trigger] new_open[k2]).name@ implies k1
            == k2 by {
            if k1 < open.len() && k2 < open.len() {
                assert(new_open[k1] == open[k1]);
                assert(new_open[k2] == open[k2]);
            } else if k1 < open.len() {
                assert(new_open[k1] == open[k1]);
            } else if k2 < open.len() {
                assert(new_open[k2] == open[k2]);
            }
        }
        assert forall|k: int|
            0 <= k < new_open.len() && !new_nested.contains(
                (#[trigger] new_open[k]).name@,
            ) implies new_anchors[index_of(
            new_anchors,
            new_open[k].name@,
        )].tsc_elapsed_exclusive <= new_open[k].prev_tsc_elapsed_inclusive by {
            if k < open.len() {
                assert(new_open[k] == open[k]);
                assert(!nested.contains(open[k].name@));
                assert(has_name(anchors, open[k].name@));
            } else if has_name(anchors, name@) {
                assert(!nested.contains(anchors[idx].name@));
                assert(anchors[idx].tsc_elapsed_exclusive <= anchors[idx].tsc_elapsed_inclusive);
            }
        }
    }
}

/// Two anchor lists with the same names at the same positions find every name
/// at the same position.
proof fn lemma_same_names(a: Seq<ProfileAnchor>, b: Seq<ProfileAnchor>)
    requires
        names_unique(a),
        a.len() == b.len(),
        forall|i: int| 0 <= i < a.len() ==> (#[trigger] b[i]).name@ == a[i].name@,
    ensures
        names_unique(b),
        forall|m: Seq<char>|
            #[trigger] has_name(b, m) == has_name(a, m) && index_of(b, m) == index_of(a, m),
{
    assert forall|i: int, j: int|
        0 <= i < b.len() && 0 <= j < b.len() && (#[trigger] b[i]).name@ == (#[trigger] b[j]).name@ implies i
        == j by {
        assert(a[i].name@ == b[i].name@);
        assert(a[j].name@ == b[j].name@);
    }
    assert forall|m: Seq<char>| #[trigger]
        has_name(b, m) == has_name(a, m) && index_of(b, m) == index_of(a, m) by {
        if has_name(a, m) {
            let k = index_of(a, m);
            assert(b[k].name@ == m);
            lemma_index_of(b, m, k);
        }
        if has_name(b, m) {
            let k = index_of(b, m);
            assert(a[k].name@ == m);
        }
    }
}

/// Exiting the innermost open region keeps the state well formed.
proof fn lemma_exit(
    anchors: Seq<ProfileAnchor>,
    open: Seq<ProfileBlock>,
    parent: Option<&'static str>,
    nested: Set<Seq<char>>,
    block: ProfileBlock,
    elapsed: u64,
)
    requires
        state_wf(anchors, open, parent, nested),
        open.len() > 0,
        block == open.last(),
        ({
            let charged = charged_anchors(anchors, block, elapsed);
            let a = charged[index_of(charged, block.name@)];
            &&& a.tsc_elapsed_exclusive + elapsed <= u64::MAX
            &&& block.prev_tsc_elapsed_inclusive + elapsed <= u64::MAX
        }),
    ensures
        state_wf(exited_anchors(anchors, block, elapsed), open.drop_last(), block.parent, nested),
        has_name(anchors, block.name@),
        block.parent matches Some(p) ==> has_name(anchors, p@),
        ({
            let charged = charged_anchors(anchors, block, elapsed);
            &&& has_name(charged, block.name@)
            &&& index_of(charged, block.name@) == index_of(anchors, block.name@)
        }),
{
    let last = open.len() - 1;
    assert(open[last] == block);
    assert(has_name(anchors, block.name@));
    let charged = charged_anchors(anchors, block, elapsed);
    let j = match block.parent {
        Some(p) => index_of(anchors, p@),
        None => -1,
    };
    if let Some(p) = block.parent {
        assert(p@ == open[last - 1].name@);
        assert(has_name(anchors, open[last - 1].name@));
    }
    assert forall|x: int| 0 <= x < anchors.len() implies (#[trigger] charged[x]).name@
        == anchors[x].name@ && (x != j ==> charged[x] == anchors[x]) by {}
    lemma_same_names(anchors, charged);
    let i = index_of(charged, block.name@);
    let result = exited_anchors(anchors, block, elapsed);
    assert forall|x: int| 0 <= x < charged.len() implies (#[trigger] result[x]).name@
        == charged[x].name@ && (x != i ==> result[x] == charged[x]) by {}
    lemma_same_names(charged, result);
    let new_open = open.drop_last();
    assert forall|k: int| 0 <= k < new_open.len() implies has_name(
        result,
        (#[trigger] new_open[k]).name@,
    ) by {
        assert(new_open[k] == open[k]);
        assert(has_name(anchors, open[k].name@));
    }
    assert forall|k: int|
        0 <= k < new_open.len() implies match (#[trigger] new_open[k]).parent {
        None => k == 0,
        Some(p) => k > 0 && p@ == new_open[k - 1].name@,
    } by {
        assert(new_open[k] == open[k]);
        assert(open[k].parent matches Some(p) ==> p@ == open[k - 1].name@);
    }
    if new_open.len() > 0 {
        assert(open[last].parent matches Some(p) && p@ == open[last - 1].name@);
    }
    {
        if !nested.contains(block.name@) {
            if let Some(p) = block.parent {
                assert(open[last - 1].name@ != open[last].name@);
                assert(i != j);
            }
            assert(anchors[i].tsc_elapsed_exclusive <= block.prev_tsc_elapsed_inclusive);
        }
        assert forall|x: int|
            0 <= x < result.len() && !nested.contains(
                (#[trigger] result[x]).name@,
            ) implies result[x].tsc_elapsed_exclusive <= result[x].tsc_elapsed_inclusive by {
            assert(anchors[x].name@ == result[x].name@);
            assert(anchors[x].tsc_elapsed_exclusive <= anchors[x].tsc_elapsed_inclusive);
        }
        assert forall|k1: int, k2: int|
            0 <= k1 < new_open.len() && 0 <= k2 < new_open.len() && !nested.contains(
                new_open[k1].name@,
            ) && (#[trigger] new_open[k1]).name@ == (#[trigger] new_open[k2]).name@ implies k1
            == k2 by {
            assert(new_open[k1] == open[k1]);
            assert(new_open[k2] == open[k2]);
        }
        assert forall|k: int|
            0 <= k < new_open.len() && !nested.contains(
                (#[trigger] new_open[k]).name@,
            ) implies result[index_of(
            result,
            new_open[k].name@,
        )].tsc_elapsed_exclusive <= new_open[k].prev_tsc_elapsed_inclusive by {
            assert(new_open[k] == open[k]);
            assert(open[k].name@ != open[last].name@);
            assert(has_name(anchors, open[k].name@));
            let x = index_of(anchors, open[k].name@);
            assert(anchors[x].tsc_elapsed_exclusive <= open[k].prev_tsc_elapsed_inclusive);
        }
    }
}

/// What a report shows of one anchor.
#[derive(Clone, Copy, Debug)]
pub struct AnchorReport {
    pub name: &'static str,
    pub hit_count: u64,
    pub exclusive_tsc: u64,
    /// The inclusive cycles, present only where they differ from the exclusive ones.
    pub inclusive_tsc: Option<u64>,
    /// The byte count, present only where it is nonzero (then throughput is shown).
    pub byte_count: Option<u64>,
}

/// What a report shows of a finished session.
#[derive(Debug)]
pub struct SessionReport {
    /// Cycles between the session's begin and end readings (zero where the counter went back).
    pub elapsed_tsc: u64,
    /// The calibrated cycle-counter frequency, zero where it is unknown.
    pub timer_freq: u64,
    /// One entry per anchor with nonzero inclusive cycles, in anchor order;
    /// none where no cycles elapsed.
    pub anchors: Vec<AnchorReport>,
}

pub open spec fn report_of(a: ProfileAnchor) -> AnchorReport {
    AnchorReport {
        name: a.name,
        hit_count: a.hit_count,
        exclusive_tsc: a.tsc_elapsed_exclusive,
        inclusive_tsc: if a.tsc_elapsed_inclusive != a.tsc_elapsed_exclusive {
            Some(a.tsc_elapsed_inclusive)
        } else {
            None
        },
        byte_count: if a.byte_count > 0 {
            Some(a.byte_count)
        } else {
            None
        },
    }
}

/// The report entries of the anchors with nonzero inclusive cycles, in order.
pub open spec fn report_lines(anchors: Seq<ProfileAnchor>) -> Seq<AnchorReport>
    decreases anchors.len(),
{
    if anchors.len() == 0 {
        Seq::empty()
    } else {
        let rest = report_lines(anchors.drop_last());
        if anchors.last().tsc_elapsed_inclusive > 0 {
            rest.push(report_of(anchors.last()))
        } else {
            rest
        }
    }
}

/// The report entries of a session that lasted `elapsed_tsc` cycles: nothing
/// is reported of a session in which no cycles elapsed.
pub open spec fn session_lines(anchors: Seq<ProfileAnchor>, elapsed_tsc: u64) -> Seq<AnchorReport> {
    if elapsed_tsc > 0 {
        report_lines(anchors)
    } else {
        Seq::empty()
    }
}

impl ProfileAnchor {
    /// What a report shows of this anchor.
    pub fn report(&self) -> (r: AnchorReport)
        ensures
            r == report_of(*self),
    {
        AnchorReport {
            name: self.name,
            hit_count: self.hit_count,
            exclusive_tsc: self.tsc_elapsed_exclusive,
            inclusive_tsc: if self.tsc_elapsed_inclusive != self.tsc_elapsed_exclusive {
                Some(self.tsc_elapsed_inclusive)
            } else {
                None
            },
            byte_count: if self.byte_count > 0 {
                Some(self.byte_count)
            } else {
                None
            },
        }
    }
}

impl Profiler {
    pub open spec fn wf(&self) -> bool {
        state_wf(self.anchors@, self.open@, self.parent, self.nested_names@)
    }

    /// Whether entering `name` with `byte_count` bytes keeps the byte count within `u64`.
    pub open spec fn entry_fits(&self, name: Seq<char>, byte_count: u64) -> bool {
        let i = index_of(self.anchors@, name);
        i >= 0 ==> self.anchors@[i].byte_count + byte_count <= u64::MAX
    }

    /// Whether exiting `block` at reading `now` keeps the anchor's counters within `u64`.
    pub open spec fn exit_fits(&self, block: ProfileBlock, now: u64) -> bool {
        let e = block_elapsed(block, now);
        let charged = charged_anchors(self.anchors@, block, e);
        let a = charged[index_of(charged, block.name@)];
        &&& a.hit_count + 1 <= u64::MAX
        &&& a.tsc_elapsed_exclusive + e <= u64::MAX
        &&& block.prev_tsc_elapsed_inclusive + e <= u64::MAX
    }

    /// A profiler with no anchors and no open region.
    pub fn new() -> (r: Profiler)
        ensures
            r.wf(),
            r.start_tsc == 0,
            r.end_tsc == 0,
            r.anchors@.len() == 0,
            r.parent is None,
            r.open@.len() == 0,
            r.nested_names@ == Set::<Seq<char>>::empty(),
    {
        Profiler {
            start_tsc: 0,
            end_tsc: 0,
            anchors: Vec::new(),
            parent: None,
            open: Ghost(Seq::empty()),
            nested_names: Ghost(Set::empty()),
        }
    }

    /// Position of the anchor named `name`, if there is one.
    pub fn find_anchor(&self, name: &str) -> (r: Option<usize>)
        ensures
            match r {
                Some(i) => i < self.anchors@.len() && self.anchors@[i as int].name@ == name@,
                None => !has_name(self.anchors@, name@),
            },
    {
        let mut i: usize = 0;
        while i < self.anchors.len()
            invariant
                0 <= i <= self.anchors@.len(),
                forall|k: int| 0 <= k < i ==> (#[trigger] self.anchors@[k]).name@ != name@,
            decreases self.anchors@.len() - i,
        {
            if same_name(self.anchors[i].name, name) {
                return Some(i);
            }
            i += 1;
        }
        None
    }

    /// Starts a session at cycle-counter reading `now`. The anchors are kept,
    /// so statistics accumulate over sessions.
    pub fn begin(&mut self, now: u64)
        requires
            old(self).wf(),
        ensures
            final(self).wf(),
            final(self).start_tsc == now,
            final(self).end_tsc == old(self).end_tsc,
            final(self).anchors@ == old(self).anchors@,
            final(self).parent == old(self).parent,
            final(self).open@ == old(self).open@,
            final(self).nested_names@ == old(self).nested_names@,
    {
        self.start_tsc = now;
    }

    /// Ends the session at cycle-counter reading `now`, with the calibrated
    /// frequency `timer_freq`, and returns what is to be reported. The anchors
    /// are kept.
    pub fn end(&mut self, now: u64, timer_freq: u64) -> (r: SessionReport)
        requires
            old(self).wf(),
        ensures
            final(self).wf(),
            final(self).end_tsc == now,
            final(self).start_tsc == old(self).start_tsc,
            final(self).anchors@ == old(self).anchors@,
            final(self).parent == old(self).parent,
            final(self).open@ == old(self).open@,
            final(self).nested_names@ == old(self).nested_names@,
            r.elapsed_tsc == sat_sub(now, old(self).start_tsc),
            r.timer_freq == timer_freq,
            r.anchors@ == session_lines(old(self).anchors@, sat_sub(now, old(self).start_tsc)),
    {
        self.end_tsc = now;
        let elapsed_tsc = self.end_tsc.saturating_sub(self.start_tsc);
        let mut lines: Vec<AnchorReport> = Vec::new();
        if elapsed_tsc == 0 {
            return SessionReport { elapsed_tsc, timer_freq, anchors: lines };
        }
        let mut i: usize = 0;
        while i < self.anchors.len()
            invariant
                i <= self.anchors@.len(),
                lines@ == report_lines(self.anchors@.subrange(0, i as int)),
            decreases self.anchors@.len() - i,
        {
            let anchor = self.anchors[i];
            if anchor.tsc_elapsed_inclusive > 0 {
                lines.push(anchor.report());
            }
            assert(self.anchors@.subrange(0, i + 1).drop_last() =~= self.anchors@.subrange(
                0,
                i as int,
            ));
            i += 1;
        }
        assert(self.anchors@.subrange(0, i as int) =~= self.anchors@);
        SessionReport { elapsed_tsc, timer_freq, anchors: lines }
    }

    /// Whether entering `name` with `byte_count` bytes keeps the byte count within `u64`.
    pub fn can_enter(&self, name: &str, byte_count: u64) -> (r: bool)
        requires
            self.wf(),
        ensures
            r == self.entry_fits(name@, byte_count),
    {
        match self.find_anchor(name) {
            Some(i) => {
                proof {
                    lemma_index_of(self.anchors@, name@, i as int);
                }
                self.anchors[i].byte_count <= u64::MAX - byte_count
            },
            None => true,
        }
    }

    /// Whether exiting the innermost open region `block` at reading `now` keeps
    /// its anchor's counters within `u64`.
    pub fn can_exit(&self, block: &ProfileBlock, now: u64) -> (r: bool)
        requires
            self.wf(),
            self.open@.len() > 0,
            *block == self.open@.last(),
        ensures
            r == self.exit_fits(*block, now),
    {
        let elapsed = now.saturating_sub(block.start_tsc);
        proof {
            lemma_exit(
                self.anchors@,
                self.open@,
                self.parent,
                self.nested_names@,
                *block,
                0,
            );
        }
        let i = match self.find_anchor(block.name) {
            Some(i) => i,
            None => {
                return false;
            },
        };
        let anchor = self.anchors[i];
        let mut exclusive = anchor.tsc_elapsed_exclusive;
        let ghost charged = charged_anchors(self.anchors@, *block, elapsed);
        proof {
            lemma_index_of(self.anchors@, block.name@, i as int);
            assert forall|x: int| 0 <= x < self.anchors@.len() implies (#[trigger] charged[x]).name@
                == self.anchors@[x].name@ by {}
            lemma_same_names(self.anchors@, charged);
            lemma_index_of(charged, block.name@, i as int);
        }
        if let Some(parent) = block.parent {
            if same_name(parent, block.name) {
                proof {
                    lemma_index_of(self.anchors@, parent@, i as int);
                }
                exclusive = exclusive.saturating_sub(elapsed);
            }
        }
        anchor.hit_count < u64::MAX && exclusive <= u64::MAX - elapsed
            && block.prev_tsc_elapsed_inclusive <= u64::MAX - elapsed
    }
}

impl ProfileBlock {
    /// Enters the region `name` at cycle-counter reading `now`, adding
    /// `byte_count` to its anchor (created, zeroed, at the end of the list on
    /// the first entry of that name). The returned block is to be handed to
    /// `exit` once the region ends.
    pub fn new(profiler: &mut Profiler, name: &'static str, byte_count: u64, now: u64) -> (r:
        ProfileBlock)
        requires
            old(profiler).wf(),
            old(profiler).entry_fits(name@, byte_count),
        ensures
            final(profiler).wf(),
            final(profiler).anchors@ == entered_anchors(old(profiler).anchors@, name, byte_count),
            final(profiler).parent == Some(name),
            r.name == name,
            r.parent == old(profiler).parent,
            r.prev_tsc_elapsed_inclusive == inclusive_of(old(profiler).anchors@, name@),
            r.start_tsc == now,
            final(profiler).open@ == old(profiler).open@.push(r),
            final(profiler).nested_names@ == nested_after_entry(
                old(profiler).nested_names@,
                old(profiler).open@,
                name@,
            ),
            final(profiler).start_tsc == old(profiler).start_tsc,
            final(profiler).end_tsc == old(profiler).end_tsc,
    {
        let ghost old_anchors = profiler.anchors@;
        let idx: usize = match profiler.find_anchor(name) {
            Some(i) => {
                proof {
                    lemma_index_of(old_anchors, name@, i as int);
                }
                i
            },
            None => {
                profiler.anchors.push(fresh_anchor_exec(name));
                profiler.anchors.len() - 1
            },
        };
        let mut anchor = profiler.anchors[idx];
        anchor.byte_count = anchor.byte_count + byte_count;
        let prev_tsc_elapsed_inclusive = anchor.tsc_elapsed_inclusive;
        profiler.anchors.set(idx, anchor);
        let parent = profiler.parent;
        profiler.parent = Some(name);
        let block = ProfileBlock { name, parent, prev_tsc_elapsed_inclusive, start_tsc: now };
        proof {
            lemma_index_of(profiler.anchors@, name@, idx as int);
            if has_name(old_anchors, name@) {
                lemma_index_of(old_anchors, name@, idx as int);
            }
            assert(profiler.anchors@ =~= entered_anchors(old_anchors, name, byte_count));
            lemma_entry(
                old_anchors,
                old(profiler).open@,
                old(profiler).parent,
                old(profiler).nested_names@,
                block,
                byte_count,
            );
            profiler.open = Ghost(old(profiler).open@.push(block));
            profiler.nested_names = Ghost(
                nested_after_entry(old(profiler).nested_names@, old(profiler).open@, name@),
            );
        }
        block
    }

    /// Exits the innermost open region, at cycle-counter reading `now`: the
    /// cycles since entry are taken from the enclosing region's exclusive
    /// cycles (stopping at zero) and added to this region's exclusive cycles;
    /// its inclusive cycles become those at entry plus the cycles since entry,
    /// and its hit count grows by one. A reading below the entry reading counts
    /// as zero cycles.
    pub fn exit(self, profiler: &mut Profiler, now: u64)
        requires
            old(profiler).wf(),
            old(profiler).open@.len() > 0,
            self == old(profiler).open@.last(),
            old(profiler).exit_fits(self, now),
        ensures
            final(profiler).wf(),
            final(profiler).anchors@ == exited_anchors(
                old(profiler).anchors@,
                self,
                block_elapsed(self, now),
            ),
            final(profiler).parent == self.parent,
            final(profiler).open@ == old(profiler).open@.drop_last(),
            final(profiler).nested_names@ == old(profiler).nested_names@,
            final(profiler).start_tsc == old(profiler).start_tsc,
            final(profiler).end_tsc == old(profiler).end_tsc,
            inclusive_covers_exclusive(final(profiler).anchors@, final(profiler).nested_names@),
    {
        let ghost old_anchors = profiler.anchors@;
        let elapsed = now.saturating_sub(self.start_tsc);
        proof {
            lemma_exit(
                old_anchors,
                old(profiler).open@,
                old(profiler).parent,
                old(profiler).nested_names@,
                self,
                elapsed,
            );
        }
        profiler.parent = self.parent;
        if let Some(parent) = self.parent {
            if let Some(j) = profiler.find_anchor(parent) {
                proof {
                    lemma_index_of(old_anchors, parent@, j as int);
                }
                let mut anchor = profiler.anchors[j];
                anchor.tsc_elapsed_exclusive = anchor.tsc_elapsed_exclusive.saturating_sub(elapsed);
                profiler.anchors.set(j, anchor);
            }
        }
        let ghost charged = profiler.anchors@;
        assert(charged =~= charged_anchors(old_anchors, self, elapsed));
        if let Some(i) = profiler.find_anchor(self.name) {
            proof {
                lemma_same_names(old_anchors, charged);
                lemma_index_of(charged, self.name@, i as int);
            }
            let mut anchor = profiler.anchors[i];
            anchor.tsc_elapsed_exclusive = anchor.tsc_elapsed_exclusive + elapsed;
            anchor.tsc_elapsed_inclusive = self.prev_tsc_elapsed_inclusive + elapsed;
            anchor.hit_count = anchor.hit_count + 1;
            profiler.anchors.set(i, anchor);
        }
        assert(profiler.anchors@ =~= exited_anchors(old_anchors, self, elapsed));
        proof {
            profiler.open = Ghost(old(profiler).open@.drop_last());
        }
    }
}



fn fresh_anchor_exec(name: &'static str) -> (r: ProfileAnchor)
    ensures
        r == fresh_anchor(name, 0),
{
    ProfileAnchor {
        name,
        hit_count: 0,
        byte_count: 0,
        tsc_elapsed_exclusive: 0,
        tsc_elapsed_inclusive: 0,
    }
}

/// Starts a profiling session on `profiler` at cycle-counter reading `now`.
pub fn profile_begin(profiler: &mut Profiler, now: u64)
    requires
        old(profiler).wf(),
    ensures
        final(profiler).wf(),
        final(profiler).start_tsc == now,
        final(profiler).end_tsc == old(profiler).end_tsc,
        final(profiler).anchors@ == old(profiler).anchors@,
        final(profiler).parent == old(profiler).parent,
        final(profiler).open@ == old(profiler).open@,
        final(profiler).nested_names@ == old(profiler).nested_names@,
{
    profiler.begin(now);
}

/// Ends the profiling session on `profiler` at cycle-counter reading `now`,
/// with the calibrated frequency `timer_freq`, and returns what is to be printed.
pub fn profile_end_and_print(profiler: &mut Profiler, now: u64, timer_freq: u64) -> (r:
    SessionReport)
    requires
        old(profiler).wf(),
    ensures
        final(profiler).wf(),
        final(profiler).end_tsc == now,
        final(profiler).start_tsc == old(profiler).start_tsc,
        final(profiler).anchors@ == old(profiler).anchors@,
        final(profiler).parent == old(profiler).parent,
        final(profiler).open@ == old(profiler).open@,
        final(profiler).nested_names@ == old(profiler).nested_names@,
        r.elapsed_tsc == sat_sub(now, old(profiler).start_tsc),
        r.timer_freq == timer_freq,
        r.anchors@ == session_lines(old(profiler).anchors@, sat_sub(now, old(profiler).start_tsc)),
{
    profiler.end(now, timer_freq)
}

/// Hit counts: entering a region leaves every hit count as it was, a first
/// entry starts its anchor at zero hits, and exiting a region adds exactly one
/// to the hit count of its own name and leaves every other name's.
pub proof fn lemma_hit_counts(
    anchors: Seq<ProfileAnchor>,
    name: &'static str,
    byte_count: u64,
    block: ProfileBlock,
    elapsed: u64,
    m: Seq<char>,
)
    requires
        names_unique(anchors),
        has_name(anchors, block.name@),
        block.parent matches Some(p) ==> has_name(anchors, p@),
        anchors[index_of(anchors, block.name@)].hit_count < u64::MAX,
    ensures
        ({
            let entered = entered_anchors(anchors, name, byte_count);
            &&& has_name(anchors, m) ==> entered[index_of(entered, m)].hit_count == anchors[index_of(
                anchors,
                m,
            )].hit_count
            &&& !has_name(anchors, name@) ==> entered[index_of(entered, name@)].hit_count == 0
        }),
        ({
            let exited = exited_anchors(anchors, block, elapsed);
            has_name(anchors, m) ==> exited[index_of(exited, m)].hit_count == anchors[index_of(
                anchors,
                m,
            )].hit_count + if m == block.name@ {
                1int
            } else {
                0int
            }
        }),
{
    let entered = entered_anchors(anchors, name, byte_count);
    let idx = if has_name(anchors, name@) {
        index_of(anchors, name@)
    } else {
        anchors.len() as int
    };
    assert forall|i: int| 0 <= i < anchors.len() implies (#[trigger] entered[i]).name@
        == anchors[i].name@ && entered[i].hit_count == anchors[i].hit_count by {}
    if has_name(anchors, m) {
        let k = index_of(anchors, m);
        assert(entered[k].name@ == m);
        lemma_entered_names(anchors, name, byte_count);
        lemma_index_of(entered, m, k);
    }
    if !has_name(anchors, name@) {
        assert(entered[idx].name@ == name@);
        lemma_entered_names(anchors, name, byte_count);
        lemma_index_of(entered, name@, idx);
    }
    let charged = charged_anchors(anchors, block, elapsed);
    let j = match block.parent {
        Some(p) => index_of(anchors, p@),
        None => -1,
    };
    assert forall|x: int| 0 <= x < anchors.len() implies (#[trigger] charged[x]).name@
        == anchors[x].name@ && charged[x].hit_count == anchors[x].hit_count by {}
    lemma_same_names(anchors, charged);
    let i = index_of(charged, block.name@);
    let exited = exited_anchors(anchors, block, elapsed);
    assert forall|x: int| 0 <= x < charged.len() implies (#[trigger] exited[x]).name@
        == charged[x].name@ && (x != i ==> exited[x].hit_count == charged[x].hit_count) by {}
    lemma_same_names(charged, exited);
    if has_name(anchors, m) {
        let k = index_of(anchors, m);
        if m != block.name@ {
            assert(anchors[i].name@ == block.name@);
            assert(k != i);
        }
    }
}

/// A region entered for the first time and exited `elapsed` cycles later with
/// no region nested inside it has exclusive and inclusive cycles both equal to
/// `elapsed`, one hit, and the entry's byte count.
pub proof fn lemma_single_region(
    anchors: Seq<ProfileAnchor>,
    name: &'static str,
    byte_count: u64,
    parent: Option<&'static str>,
    start_tsc: u64,
    elapsed: u64,
)
    requires
        names_unique(anchors),
        !has_name(anchors, name@),
        parent matches Some(p) ==> has_name(anchors, p@),
    ensures
        ({
            let block = ProfileBlock {
                name,
                parent,
                prev_tsc_elapsed_inclusive: inclusive_of(anchors, name@),
                start_tsc,
            };
            let after = exited_anchors(entered_anchors(anchors, name, byte_count), block, elapsed);
            let a = after[index_of(after, name@)];
            &&& has_name(after, name@)
            &&& a.tsc_elapsed_exclusive == elapsed
            &&& a.tsc_elapsed_inclusive == elapsed
            &&& a.hit_count == 1
            &&& a.byte_count == byte_count
        }),
{
    let block = ProfileBlock {
        name,
        parent,
        prev_tsc_elapsed_inclusive: inclusive_of(anchors, name@),
        start_tsc,
    };
    let entered = entered_anchors(anchors, name, byte_count);
    let n = anchors.len() as int;
    assert(entered[n].name@ == name@);
    assert forall|i: int| 0 <= i < anchors.len() implies (#[trigger] entered[i]) == anchors[i] by {}
    lemma_entered_names(anchors, name, byte_count);
    lemma_index_of(entered, name@, n);
    if let Some(p) = parent {
        let k = index_of(anchors, p@);
        assert(entered[k].name@ == p@);
        lemma_index_of(entered, p@, k);
        assert(k != n);
    }
    let charged = charged_anchors(entered, block, elapsed);
    assert forall|x: int| 0 <= x < entered.len() implies (#[trigger] charged[x]).name@
        == entered[x].name@ by {}
    lemma_same_names(entered, charged);
    assert(charged[n] == entered[n]);
    let after = exited_anchors(entered, block, elapsed);
    assert forall|x: int| 0 <= x < charged.len() implies (#[trigger] after[x]).name@
        == charged[x].name@ by {}
    lemma_same_names(charged, after);
}

/// A region entered again while a region of the same name is open: once the
/// inner and then the outer activation have exited, the anchor's inclusive
/// cycles are those it had before the outer entry plus the outer activation's
/// span, which contains the inner one.
pub proof fn lemma_same_name_nesting(
    anchors: Seq<ProfileAnchor>,
    name: &'static str,
    outer_bytes: u64,
    inner_bytes: u64,
    parent: Option<&'static str>,
    outer_start: u64,
    inner_start: u64,
    inner_elapsed: u64,
    outer_elapsed: u64,
)
    requires
        names_unique(anchors),
        parent matches Some(p) ==> has_name(anchors, p@),
        inclusive_of(anchors, name@) + outer_elapsed <= u64::MAX,
    ensures
        ({
            let outer = ProfileBlock {
                name,
                parent,
                prev_tsc_elapsed_inclusive: inclusive_of(anchors, name@),
                start_tsc: outer_start,
            };
            let a1 = entered_anchors(anchors, name, outer_bytes);
            let inner = ProfileBlock {
                name,
                parent: Some(name),
                prev_tsc_elapsed_inclusive: inclusive_of(a1, name@),
                start_tsc: inner_start,
            };
            let a2 = entered_anchors(a1, name, inner_bytes);
            let a3 = exited_anchors(a2, inner, inner_elapsed);
            let a4 = exited_anchors(a3, outer, outer_elapsed);
            inclusive_of(a4, name@) == inclusive_of(anchors, name@) + outer_elapsed
        }),
{
    let outer = ProfileBlock {
        name,
        parent,
        prev_tsc_elapsed_inclusive: inclusive_of(anchors, name@),
        start_tsc: outer_start,
    };
    let a1 = entered_anchors(anchors, name, outer_bytes);
    let inner = ProfileBlock {
        name,
        parent: Some(name),
        prev_tsc_elapsed_inclusive: inclusive_of(a1, name@),
        start_tsc: inner_start,
    };
    let a2 = entered_anchors(a1, name, inner_bytes);
    let a3 = exited_anchors(a2, inner, inner_elapsed);
    let a4 = exited_anchors(a3, outer, outer_elapsed);
    lemma_entered_names(anchors, name, outer_bytes);
    lemma_entered_names(a1, name, inner_bytes);
    lemma_exited_names(a2, inner, inner_elapsed);
    lemma_exited_names(a3, outer, outer_elapsed);
}

/// After an entry the names are still unique and the entered name has an anchor.
proof fn lemma_entered_names(anchors: Seq<ProfileAnchor>, name: &'static str, byte_count: u64)
    requires
        names_unique(anchors),
    ensures
        names_unique(entered_anchors(anchors, name, byte_count)),
        has_name(entered_anchors(anchors, name, byte_count), name@),
        forall|m: Seq<char>|
            #[trigger] has_name(anchors, m) ==> has_name(entered_anchors(anchors, name, byte_count), m)
                && index_of(entered_anchors(anchors, name, byte_count), m) == index_of(anchors, m),
        inclusive_of(entered_anchors(anchors, name, byte_count), name@) == inclusive_of(
            anchors,
            name@,
        ),
{
    let entered = entered_anchors(anchors, name, byte_count);
    let n = anchors.len() as int;
    if has_name(anchors, name@) {
        let k = index_of(anchors, name@);
        assert forall|x: int| 0 <= x < anchors.len() implies (#[trigger] entered[x]).name@
            == anchors[x].name@ by {}
        lemma_same_names(anchors, entered);
    } else {
        assert(entered[n].name@ == name@);
        assert forall|i: int, j: int|
            0 <= i < entered.len() && 0 <= j < entered.len() && (#[trigger] entered[i]).name@
                == (#[trigger] entered[j]).name@ implies i == j by {
            if i < n && j < n {
                assert(anchors[i].name@ == anchors[j].name@);
            } else if i < n {
                assert(anchors[i].name@ == name@);
            } else if j < n {
                assert(anchors[j].name@ == name@);
            }
        }
        assert forall|m: Seq<char>| #[trigger] has_name(anchors, m) implies has_name(entered, m)
            && index_of(entered, m) == index_of(anchors, m) by {
            let k = index_of(anchors, m);
            assert(entered[k].name@ == m);
            lemma_index_of(entered, m, k);
        }
        lemma_index_of(entered, name@, n);
    }
}

/// An exit keeps the names, and the exited name's anchor ends with the block's
/// inclusive cycles at entry plus `elapsed`.
proof fn lemma_exited_names(anchors: Seq<ProfileAnchor>, block: ProfileBlock, elapsed: u64)
    requires
        names_unique(anchors),
        has_name(anchors, block.name@),
        block.parent matches Some(p) ==> has_name(anchors, p@),
    ensures
        names_unique(exited_anchors(anchors, block, elapsed)),
        forall|m: Seq<char>|
            #[trigger] has_name(exited_anchors(anchors, block, elapsed), m) == has_name(anchors, m)
                && index_of(exited_anchors(anchors, block, elapsed), m) == index_of(anchors, m),
        inclusive_of(exited_anchors(anchors, block, elapsed), block.name@) == (
        block.prev_tsc_elapsed_inclusive + elapsed) as u64,
{
    let charged = charged_anchors(anchors, block, elapsed);
    assert forall|x: int| 0 <= x < anchors.len() implies (#[trigger] charged[x]).name@
        == anchors[x].name@ by {}
    lemma_same_names(anchors, charged);
    let i = index_of(charged, block.name@);
    let exited = exited_anchors(anchors, block, elapsed);
    assert forall|x: int| 0 <= x < charged.len() implies (#[trigger] exited[x]).name@
        == charged[x].name@ by {}
    lemma_same_names(charged, exited);
}

/// Two invocations of a region one after the other, each exited after its
/// own span: the anchor's inclusive cycles grow by the sum of both spans, the
/// value taken at the second entry being carried forward.
pub proof fn lemma_sequential_invocations(
    anchors: Seq<ProfileAnchor>,
    name: &'static str,
    first_bytes: u64,
    second_bytes: u64,
    parent: Option<&'static str>,
    first_start: u64,
    second_start: u64,
    first_span: u64,
    second_span: u64,
)
    requires
        names_unique(anchors),
        parent matches Some(p) ==> has_name(anchors, p@),
        inclusive_of(anchors, name@) + first_span + second_span <= u64::MAX,
    ensures
        ({
            let first = ProfileBlock {
                name,
                parent,
                prev_tsc_elapsed_inclusive: inclusive_of(anchors, name@),
                start_tsc: first_start,
            };
            let a1 = exited_anchors(entered_anchors(anchors, name, first_bytes), first, first_span);
            let second = ProfileBlock {
                name,
                parent,
                prev_tsc_elapsed_inclusive: inclusive_of(a1, name@),
                start_tsc: second_start,
            };
            let a2 = exited_anchors(entered_anchors(a1, name, second_bytes), second, second_span);
            inclusive_of(a2, name@) == inclusive_of(anchors, name@) + first_span + second_span
        }),
{
    let first = ProfileBlock {
        name,
        parent,
        prev_tsc_elapsed_inclusive: inclusive_of(anchors, name@),
        start_tsc: first_start,
    };
    let e1 = entered_anchors(anchors, name, first_bytes);
    lemma_entered_names(anchors, name, first_bytes);
    if let Some(p) = parent {
        assert(has_name(e1, p@));
    }
    lemma_exited_names(e1, first, first_span);
    let a1 = exited_anchors(e1, first, first_span);
    let second = ProfileBlock {
        name,
        parent,
        prev_tsc_elapsed_inclusive: inclusive_of(a1, name@),
        start_tsc: second_start,
    };
    lemma_entered_names(a1, name, second_bytes);
    if let Some(p) = parent {
        assert(has_name(e1, p@));
        assert(has_name(a1, p@));
        assert(has_name(entered_anchors(a1, name, second_bytes), p@));
    }
    lemma_exited_names(entered_anchors(a1, name, second_bytes), second, second_span);
}

/// The block of an entry of `child` inside the open region `parent`.
pub open spec fn child_block(
    anchors: Seq<ProfileAnchor>,
    child: &'static str,
    parent: &'static str,
) -> ProfileBlock {
    ProfileBlock {
        name: child,
        parent: Some(parent),
        prev_tsc_elapsed_inclusive: inclusive_of(anchors, child@),
        start_tsc: 0,
    }
}

/// The anchors after `k` invocations of `child`, one after the other inside
/// the open region `parent`, each lasting `d` cycles.
pub open spec fn after_children(
    anchors: Seq<ProfileAnchor>,
    child: &'static str,
    parent: &'static str,
    k: nat,
    d: u64,
) -> Seq<ProfileAnchor>
    decreases k,
{
    if k == 0 {
        anchors
    } else {
        let before = after_children(anchors, child, parent, (k - 1) as nat, d);
        exited_anchors(entered_anchors(before, child, 0), child_block(before, child, parent), d)
    }
}

/// `k` invocations of a child region, each lasting `d` cycles, one after the
/// other inside an open parent region whose exclusive cycles cover them: the
/// child has `k` hits and `k * d` inclusive and exclusive cycles, and the
/// parent's exclusive cycles lose exactly `k * d`, its inclusive ones unchanged.
pub proof fn lemma_sequential_children(
    anchors: Seq<ProfileAnchor>,
    child: &'static str,
    parent: &'static str,
    k: nat,
    d: u64,
)
    requires
        names_unique(anchors),
        has_name(anchors, parent@),
        !has_name(anchors, child@),
        k * d <= anchors[index_of(anchors, parent@)].tsc_elapsed_exclusive,
        k <= u64::MAX,
    ensures
        ({
            let after = after_children(anchors, child, parent, k, d);
            let p0 = anchors[index_of(anchors, parent@)];
            let p = after[index_of(after, parent@)];
            &&& names_unique(after)
            &&& has_name(after, parent@)
            &&& index_of(after, parent@) == index_of(anchors, parent@)
            &&& p.tsc_elapsed_exclusive == p0.tsc_elapsed_exclusive - k * d
            &&& p.tsc_elapsed_inclusive == p0.tsc_elapsed_inclusive
            &&& k > 0 ==> {
                let c = after[index_of(after, child@)];
                &&& has_name(after, child@)
                &&& c.hit_count == k
                &&& c.tsc_elapsed_inclusive == k * d
                &&& c.tsc_elapsed_exclusive == k * d
            }
        }),
    decreases k,
{
    if k > 0 {
        let k1 = (k - 1) as nat;
        assert(k1 * d <= k * d) by (nonlinear_arith)
            requires
                k1 + 1 == k,
        ;
        assert(k * d == k1 * d + d) by (nonlinear_arith)
            requires
                k1 + 1 == k,
        ;
        lemma_sequential_children(anchors, child, parent, k1, d);
        let before = after_children(anchors, child, parent, k1, d);
        let entered = entered_anchors(before, child, 0);
        let block = child_block(before, child, parent);
        lemma_entered_names(before, child, 0);
        assert(has_name(entered, parent@));
        lemma_exited_names(entered, block, d);
        let pi = index_of(before, parent@);
        let ci = index_of(entered, child@);
        assert(index_of(entered, parent@) == pi);
        assert(entered[pi].name@ == parent@);
        assert(entered[ci].name@ == child@);
        if parent@ == child@ {
            assert(has_name(anchors, child@));
        }
        assert(pi != ci);
        if k1 == 0 {
            assert(!has_name(before, child@));
            assert(entered[ci].hit_count == 0);
            assert(entered[ci].tsc_elapsed_exclusive == 0);
        } else {
            let bi = index_of(before, child@);
            assert(index_of(entered, child@) == bi);
            assert(entered[ci] == with_bytes(before[bi], 0));
            assert(inclusive_of(before, child@) == k1 * d);
        }
        assert(entered[pi] == before[pi]);
        let charged = charged_anchors(entered, block, d);
        assert(charged[ci] == entered[ci]);
        assert(charged[pi].tsc_elapsed_exclusive == entered[pi].tsc_elapsed_exclusive - d);
        let after = exited_anchors(entered, block, d);
        assert(index_of(charged, child@) == ci);
        assert(after[pi] == charged[pi]);
        assert(after[ci] == close_anchor(charged[ci], block.prev_tsc_elapsed_inclusive, d));
        let p0 = anchors[index_of(anchors, parent@)];
        assert(pi == index_of(anchors, parent@));
        assert(before[pi].tsc_elapsed_exclusive == p0.tsc_elapsed_exclusive - k1 * d);
        assert(after[pi].tsc_elapsed_exclusive == p0.tsc_elapsed_exclusive - k * d);
        assert(after == after_children(anchors, child, parent, k, d));
    } else {
        assert(k * d == 0) by (nonlinear_arith)
            requires
                k == 0,
        ;
    }
}

} // verus!
