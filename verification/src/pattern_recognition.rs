//! Kinds of recognised patterns, and the counting and grouping behind the
//! structural, temporal and sequence detectors.
use vstd::prelude::*;
use crate::text::str_eq;

verus! {

/// Pattern kinds.
#[derive(Debug, Clone, Copy, PartialEq, Eq, Hash)]
pub enum PatternType {
    /// Repeating sequence (train of thought, series of operations).
    Sequence,
    /// Temporal rhythm (daily, weekly cycle).
    Temporal,
    /// Structural motif (sub-graph pattern).
    StructuralMotif,
    /// Spatial cluster (grouping of memories).
    Cluster,
    /// Pattern spanning several domains.
    CrossDomain,
    /// Unknown / one-off.
    Unknown,
}

impl PatternType {
    /// The displayed name of the kind.
    pub fn label(&self) -> (r: &'static str)
        ensures
            r@ == match *self {
                PatternType::Sequence => "Sequence"@,
                PatternType::Temporal => "Temporal"@,
                PatternType::StructuralMotif => "Structural"@,
                PatternType::Cluster => "Cluster"@,
                PatternType::CrossDomain => "CrossDomain"@,
                PatternType::Unknown => "Unknown"@,
            },
    {
        match self {
            PatternType::Sequence => "Sequence",
            PatternType::Temporal => "Temporal",
            PatternType::StructuralMotif => "Structural",
            PatternType::Cluster => "Cluster",
            PatternType::CrossDomain => "CrossDomain",
            PatternType::Unknown => "Unknown",
        }
    }
}

// ─── Naming nodes by number ─────────────────────────

/// The text of each string.
pub open spec fn views(v: Seq<String>) -> Seq<Seq<char>> {
    v.map_values(|s: String| s@)
}

/// The distinct values of `s`, in the order they first occur.
pub open spec fn distinct_in_order<A>(s: Seq<A>) -> Seq<A>
    decreases s.len(),
{
    if s.len() == 0 {
        Seq::empty()
    } else {
        let d = distinct_in_order(s.drop_last());
        if d.contains(s.last()) {
            d
        } else {
            d.push(s.last())
        }
    }
}

/// No value occurs twice in what `distinct_in_order` gives, and it holds
/// exactly the values of `s`.
pub proof fn lemma_distinct_in_order<A>(s: Seq<A>)
    ensures
        distinct_in_order(s).no_duplicates(),
        forall|x: A| #[trigger] distinct_in_order(s).contains(x) <==> s.contains(x),
        distinct_in_order(s).len() <= s.len(),
    decreases s.len(),
{
    if s.len() > 0 {
        let d = distinct_in_order(s.drop_last());
        lemma_distinct_in_order(s.drop_last());
        assert forall|x: A| s.contains(x) <==> (s.drop_last().contains(x) || x == s.last()) by {
            if s.contains(x) {
                let k = choose|k: int| 0 <= k < s.len() && s[k] == x;
                if k < s.len() - 1 {
                    assert(s.drop_last()[k] == x);
                }
            }
            if s.drop_last().contains(x) {
                let k = choose|k: int| 0 <= k < s.drop_last().len() && s.drop_last()[k] == x;
                assert(s[k] == x);
            }
            if x == s.last() {
                assert(s[s.len() - 1] == x);
            }
        }
        if !d.contains(s.last()) {
            let e = d.push(s.last());
            assert forall|x: A| e.contains(x) <==> (d.contains(x) || x == s.last()) by {
                if e.contains(x) {
                    let k = choose|k: int| 0 <= k < e.len() && e[k] == x;
                    if k < d.len() {
                        assert(d[k] == x);
                    }
                }
                if d.contains(x) {
                    let k = choose|k: int| 0 <= k < d.len() && d[k] == x;
                    assert(e[k] == x);
                }
                if x == s.last() {
                    assert(e[e.len() - 1] == x);
                }
            }
            assert forall|i: int, j: int| 0 <= i < e.len() && 0 <= j < e.len() && i != j implies e[i] != e[j] by {
                if i < d.len() && j < d.len() {
                    assert(d[i] != d[j]);
                } else if i < d.len() {
                    assert(d.contains(d[i]));
                } else {
                    assert(d.contains(d[j]));
                }
            }
        }
    }
}

/// Numbers the distinct names in the order they first occur: the names, and
/// for each input its name's number.
pub fn intern_names(names: &Vec<String>) -> (r: (Vec<String>, Vec<usize>))
    ensures
        views(r.0@) == distinct_in_order(views(names@)),
        r.1@.len() == names@.len(),
        forall|i: int| 0 <= i < names@.len() ==> #[trigger] r.1@[i] < r.0@.len() && r.0@[r.1@[i] as int]@ == names@[i]@,
{
    let ghost all = views(names@);
    let mut nodes: Vec<String> = Vec::new();
    let mut ids: Vec<usize> = Vec::new();
    let mut i: usize = 0;
    while i < names.len()
        invariant
            i <= names@.len(),
            all == views(names@),
            views(nodes@) == distinct_in_order(all.take(i as int)),
            ids@.len() == i,
            forall|k: int| 0 <= k < i ==> #[trigger] ids@[k] < nodes@.len() && nodes@[ids@[k] as int]@ == names@[k]@,
        decreases names.len() - i,
    {
        let ghost before = all.take(i as int);
        assert(all.take(i + 1).drop_last() =~= before);
        assert(all.take(i + 1).last() == names@[i as int]@);
        let mut j: usize = 0;
        let mut found: bool = false;
        while j < nodes.len()
            invariant_except_break
                !found,
            invariant
                j <= nodes@.len(),
                i < names@.len(),
                forall|t: int| 0 <= t < j ==> nodes@[t]@ != names@[i as int]@,
            ensures
                found ==> j < nodes@.len() && nodes@[j as int]@ == names@[i as int]@,
                !found ==> forall|t: int| 0 <= t < nodes@.len() ==> nodes@[t]@ != names@[i as int]@,
            decreases nodes.len() - j,
        {
            if str_eq(nodes[j].as_str(), names[i].as_str()) {
                found = true;
                break;
            }
            j = j + 1;
        }
        if found {
            assert(views(nodes@)[j as int] == names@[i as int]@);
            assert(distinct_in_order(before).contains(names@[i as int]@));
            ids.push(j);
        } else {
            assert(!distinct_in_order(before).contains(names@[i as int]@)) by {
                if distinct_in_order(before).contains(names@[i as int]@) {
                    let t = choose|t: int| 0 <= t < views(nodes@).len() && views(nodes@)[t] == names@[i as int]@;
                    assert(nodes@[t]@ == names@[i as int]@);
                }
            }
            let ghost old_nodes = nodes@;
            ids.push(nodes.len());
            nodes.push(names[i].clone());
            assert(views(nodes@) =~= views(old_nodes).push(names@[i as int]@));
            assert forall|k: int| 0 <= k < i implies #[trigger] ids@[k] < nodes@.len() && nodes@[ids@[k] as int]@ == names@[k]@ by {
                assert(nodes@[ids@[k] as int] == old_nodes[ids@[k] as int]);
            }
        }
        i = i + 1;
    }
    assert(all.take(names@.len() as int) =~= all);
    (nodes, ids)
}

// ─── Structural motifs of a directed graph ──────────

/// The far ends of node `n`'s edges among the first `k`, in edge order;
/// edge `e` runs from `f[e]` to `t[e]`. With `f` the sources and `t` the
/// targets these are `n`'s targets; swapped, its sources.
pub open spec fn ends_from(f: Seq<usize>, t: Seq<usize>, n: int, k: int) -> Seq<usize>
    decreases k,
{
    if k <= 0 {
        Seq::empty()
    } else {
        ends_from(f, t, n, k - 1) + if f[k - 1] == n {
            seq![t[k - 1]]
        } else {
            Seq::<usize>::empty()
        }
    }
}

/// A node with its far ends.
pub struct Fan {
    pub node: usize,
    pub ends: Vec<usize>,
}

impl View for Fan {
    type V = (usize, Seq<usize>);

    open spec fn view(&self) -> (usize, Seq<usize>) {
        (self.node, self.ends@)
    }
}

pub open spec fn fan_views(v: Seq<Fan>) -> Seq<(usize, Seq<usize>)> {
    v.map_values(|x: Fan| x@)
}

/// Among nodes `0 .. m`, in order, those with three or more far ends, each
/// with its ends.
pub open spec fn fans_upto(f: Seq<usize>, t: Seq<usize>, m: int) -> Seq<(usize, Seq<usize>)>
    decreases m,
{
    if m <= 0 {
        Seq::empty()
    } else {
        fans_upto(f, t, m - 1) + if ends_from(f, t, m - 1, f.len() as int).len() >= 3 {
            seq![((m - 1) as usize, ends_from(f, t, m - 1, f.len() as int))]
        } else {
            Seq::<(usize, Seq<usize>)>::empty()
        }
    }
}

/// The number of edge ends at node `n` (a loop counts twice).
pub open spec fn degree_of(f: Seq<usize>, t: Seq<usize>, n: int) -> nat {
    ends_from(f, t, n, f.len() as int).len() + ends_from(t, f, n, t.len() as int).len()
}

/// A hub has degree four or more and more than twice the mean degree of
/// the `nodes` nodes; their degrees sum to twice the number of edges.
pub open spec fn is_hub(f: Seq<usize>, t: Seq<usize>, nodes: int, n: int) -> bool {
    degree_of(f, t, n) >= 4 && degree_of(f, t, n) * nodes > 4 * f.len()
}

/// Among nodes `0 .. m`, in order, the hubs with their degrees.
pub open spec fn hubs_upto(f: Seq<usize>, t: Seq<usize>, nodes: int, m: int) -> Seq<(usize, usize)>
    decreases m,
{
    if m <= 0 {
        Seq::empty()
    } else {
        hubs_upto(f, t, nodes, m - 1) + if is_hub(f, t, nodes, m - 1) {
            seq![((m - 1) as usize, degree_of(f, t, m - 1) as usize)]
        } else {
            Seq::<(usize, usize)>::empty()
        }
    }
}

proof fn lemma_ends_len(f: Seq<usize>, t: Seq<usize>, n: int, k: int)
    ensures
        ends_from(f, t, n, k).len() <= if k < 0 { 0 } else { k },
    decreases k,
{
    if k > 0 {
        lemma_ends_len(f, t, n, k - 1);
    }
}

/// For each node below `nodes`, its far ends over all edges.
fn ends_lists(f: &Vec<usize>, t: &Vec<usize>, nodes: usize) -> (r: Vec<Vec<usize>>)
    requires
        f@.len() == t@.len(),
        forall|e: int| 0 <= e < f@.len() ==> #[trigger] f@[e] < nodes,
    ensures
        r@.len() == nodes,
        forall|n: int| 0 <= n < nodes ==> #[trigger] r@[n]@ == ends_from(f@, t@, n, f@.len() as int),
{
    let mut r: Vec<Vec<usize>> = Vec::new();
    let mut n: usize = 0;
    while n < nodes
        invariant
            n <= nodes,
            r@.len() == n,
            forall|m: int| 0 <= m < n ==> #[trigger] r@[m]@ == Seq::<usize>::empty(),
        decreases nodes - n,
    {
        r.push(Vec::new());
        n = n + 1;
    }
    let mut e: usize = 0;
    while e < f.len()
        invariant
            e <= f@.len(),
            f@.len() == t@.len(),
            forall|k: int| 0 <= k < f@.len() ==> #[trigger] f@[k] < nodes,
            r@.len() == nodes,
            forall|m: int| 0 <= m < nodes ==> #[trigger] r@[m]@ == ends_from(f@, t@, m, e as int),
        decreases f.len() - e,
    {
        let x: usize = f[e];
        let y: usize = t[e];
        let ghost before = r@;
        r[x].push(y);
        assert forall|m: int| 0 <= m < nodes implies #[trigger] r@[m]@ == ends_from(f@, t@, m, e + 1) by {
            if m == x as int {
                assert(r@[m]@ =~= before[m]@.push(y));
                assert(ends_from(f@, t@, m, e + 1) =~= ends_from(f@, t@, m, e as int) + seq![y]);
            } else {
                assert(r@[m] == before[m]);
                assert(ends_from(f@, t@, m, e + 1) =~= ends_from(f@, t@, m, e as int) + Seq::<usize>::empty());
            }
        }
        e = e + 1;
    }
    r
}

fn copy_ids(v: &Vec<usize>) -> (r: Vec<usize>)
    ensures
        r@ == v@,
{
    let mut r: Vec<usize> = Vec::new();
    let mut i: usize = 0;
    while i < v.len()
        invariant
            i <= v@.len(),
            r@ == v@.take(i as int),
        decreases v.len() - i,
    {
        r.push(v[i]);
        assert(r@ =~= v@.take(i + 1));
        i = i + 1;
    }
    assert(v@.take(v@.len() as int) =~= v@);
    r
}

/// The structural motifs of a directed graph whose nodes are numbered below
/// `nodes`.
pub struct MotifScan {
    /// Nodes with edges to three or more nodes, with those targets.
    pub fan_out: Vec<Fan>,
    /// Nodes with edges from three or more nodes, with those sources.
    pub fan_in: Vec<Fan>,
    /// Hub nodes with their degrees.
    pub hubs: Vec<(usize, usize)>,
}

/// Finds the fan-out, fan-in and hub motifs of the graph whose edge `e`
/// runs from node `from[e]` to node `to[e]`, nodes being numbered below
/// `nodes`; each list is in node order.
pub fn scan_motifs(from: &Vec<usize>, to: &Vec<usize>, nodes: usize) -> (r: MotifScan)
    requires
        from@.len() == to@.len(),
        from@.len() <= usize::MAX / 2,
        forall|e: int| 0 <= e < from@.len() ==> #[trigger] from@[e] < nodes && to@[e] < nodes,
    ensures
        fan_views(r.fan_out@) == fans_upto(from@, to@, nodes as int),
        fan_views(r.fan_in@) == fans_upto(to@, from@, nodes as int),
        r.hubs@ == hubs_upto(from@, to@, nodes as int, nodes as int),
{
    let outs = ends_lists(from, to, nodes);
    assert forall|e: int| 0 <= e < to@.len() implies #[trigger] to@[e] < nodes by {
        assert(from@[e] < nodes && to@[e] < nodes);
    }
    let ins = ends_lists(to, from, nodes);
    let edges: usize = from.len();
    let mut fan_out: Vec<Fan> = Vec::new();
    let mut fan_in: Vec<Fan> = Vec::new();
    let mut hubs: Vec<(usize, usize)> = Vec::new();
    let mut n: usize = 0;
    while n < nodes
        invariant
            n <= nodes,
            edges == from@.len(),
            from@.len() == to@.len(),
            edges <= usize::MAX / 2,
            outs@.len() == nodes,
            ins@.len() == nodes,
            forall|m: int| 0 <= m < nodes ==> #[trigger] outs@[m]@ == ends_from(from@, to@, m, from@.len() as int),
            forall|m: int| 0 <= m < nodes ==> #[trigger] ins@[m]@ == ends_from(to@, from@, m, to@.len() as int),
            fan_views(fan_out@) == fans_upto(from@, to@, n as int),
            fan_views(fan_in@) == fans_upto(to@, from@, n as int),
            hubs@ == hubs_upto(from@, to@, nodes as int, n as int),
        decreases nodes - n,
    {
        let a: usize = outs[n].len();
        let b: usize = ins[n].len();
        proof {
            lemma_ends_len(from@, to@, n as int, from@.len() as int);
            lemma_ends_len(to@, from@, n as int, to@.len() as int);
        }
        if a >= 3 {
            let ghost prev = fan_views(fan_out@);
            fan_out.push(Fan { node: n, ends: copy_ids(&outs[n]) });
            assert(fan_views(fan_out@) =~= prev.push((n, outs@[n as int]@)));
        }
        assert(fan_views(fan_out@) =~= fans_upto(from@, to@, n + 1));
        if b >= 3 {
            let ghost prev = fan_views(fan_in@);
            fan_in.push(Fan { node: n, ends: copy_ids(&ins[n]) });
            assert(fan_views(fan_in@) =~= prev.push((n, ins@[n as int]@)));
        }
        assert(fan_views(fan_in@) =~= fans_upto(to@, from@, n + 1));
        assert(a + b <= 2 * edges);
        let deg: usize = a + b;
        let deg_w: u128 = deg as u128;
        let nodes_w: u128 = nodes as u128;
        assert(deg_w * nodes_w < 0x1_0000_0000_0000_0000_0000_0000_0000_0000) by (nonlinear_arith)
            requires
                deg_w < 0x1_0000_0000_0000_0000,
                nodes_w < 0x1_0000_0000_0000_0000,
        ;
        if deg >= 4 && deg_w * nodes_w > 4 * (edges as u128) {
            hubs.push((n, deg));
        }
        assert(degree_of(from@, to@, n as int) == deg);
        assert(hubs@ =~= hubs_upto(from@, to@, nodes as int, n + 1));
        n = n + 1;
    }
    MotifScan { fan_out, fan_in, hubs }
}

/// Each edge's two end names in turn: source, target, source, target, ...
pub open spec fn endpoints(from: Seq<Seq<char>>, to: Seq<Seq<char>>) -> Seq<Seq<char>> {
    Seq::new(2 * from.len(), |i: int| if i % 2 == 0 { from[i / 2] } else { to[i / 2] })
}

/// A graph given by named edges, its nodes numbered, and its motifs.
pub struct GraphMotifs {
    /// The node names, in the order they first occur among the edge ends.
    pub nodes: Vec<String>,
    /// Each edge's source, by number.
    pub from_ids: Vec<usize>,
    /// Each edge's target, by number.
    pub to_ids: Vec<usize>,
    pub scan: MotifScan,
}

/// Numbers the nodes of the graph with edges `from[e] -> to[e]` and finds
/// its fan-out, fan-in and hub motifs.
pub fn graph_motifs(from: &Vec<String>, to: &Vec<String>) -> (r: GraphMotifs)
    requires
        from@.len() == to@.len(),
        from@.len() <= usize::MAX / 4,
    ensures
        views(r.nodes@) == distinct_in_order(endpoints(views(from@), views(to@))),
        r.from_ids@.len() == from@.len(),
        r.to_ids@.len() == to@.len(),
        forall|e: int| 0 <= e < from@.len() ==> #[trigger] r.from_ids@[e] < r.nodes@.len()
            && r.nodes@[r.from_ids@[e] as int]@ == from@[e]@,
        forall|e: int| 0 <= e < to@.len() ==> #[trigger] r.to_ids@[e] < r.nodes@.len()
            && r.nodes@[r.to_ids@[e] as int]@ == to@[e]@,
        fan_views(r.scan.fan_out@) == fans_upto(r.from_ids@, r.to_ids@, r.nodes@.len() as int),
        fan_views(r.scan.fan_in@) == fans_upto(r.to_ids@, r.from_ids@, r.nodes@.len() as int),
        r.scan.hubs@ == hubs_upto(r.from_ids@, r.to_ids@, r.nodes@.len() as int, r.nodes@.len() as int),
{
    let ghost ends = endpoints(views(from@), views(to@));
    let mut names: Vec<String> = Vec::new();
    let mut e: usize = 0;
    while e < from.len()
        invariant
            e <= from@.len(),
            from@.len() == to@.len(),
            from@.len() <= usize::MAX / 4,
            ends == endpoints(views(from@), views(to@)),
            views(names@) == ends.take(2 * e),
        decreases from.len() - e,
    {
        let ghost prev = views(names@);
        names.push(from[e].clone());
        names.push(to[e].clone());
        assert(views(names@) =~= prev.push(from@[e as int]@).push(to@[e as int]@));
        assert((2 * e) % 2 == 0 && (2 * e) / 2 == e);
        assert((2 * e + 1) % 2 == 1 && (2 * e + 1) / 2 == e);
        assert(ends[2 * e] == from@[e as int]@);
        assert(ends[2 * e + 1] == to@[e as int]@);
        assert(views(names@) =~= ends.take(2 * e + 2));
        e = e + 1;
    }
    assert(ends.take(2 * from@.len() as int) =~= ends);
    let (nodes, ids) = intern_names(&names);
    let mut from_ids: Vec<usize> = Vec::new();
    let mut to_ids: Vec<usize> = Vec::new();
    let mut k: usize = 0;
    while k < from.len()
        invariant
            k <= from@.len(),
            from@.len() == to@.len(),
            from@.len() <= usize::MAX / 4,
            ids@.len() == 2 * from@.len(),
            names@.len() == 2 * from@.len(),
            views(names@) == ends,
            ends == endpoints(views(from@), views(to@)),
            forall|i: int| 0 <= i < names@.len() ==> #[trigger] ids@[i] < nodes@.len() && nodes@[ids@[i] as int]@ == names@[i]@,
            from_ids@.len() == k,
            to_ids@.len() == k,
            forall|j: int| 0 <= j < k ==> #[trigger] from_ids@[j] == ids@[2 * j],
            forall|j: int| 0 <= j < k ==> #[trigger] to_ids@[j] == ids@[2 * j + 1],
        decreases from.len() - k,
    {
        from_ids.push(ids[2 * k]);
        to_ids.push(ids[2 * k + 1]);
        k = k + 1;
    }
    assert forall|j: int| 0 <= j < from@.len() implies #[trigger] from_ids@[j] < nodes@.len()
        && nodes@[from_ids@[j] as int]@ == from@[j]@ by {
        assert(from_ids@[j] == ids@[2 * j]);
        assert(names@[2 * j]@ == views(names@)[2 * j]);
        assert((2 * j) % 2 == 0 && (2 * j) / 2 == j);
    }
    assert forall|j: int| 0 <= j < to@.len() implies #[trigger] to_ids@[j] < nodes@.len()
        && nodes@[to_ids@[j] as int]@ == to@[j]@ by {
        assert(to_ids@[j] == ids@[2 * j + 1]);
        assert(names@[2 * j + 1]@ == views(names@)[2 * j + 1]);
        assert((2 * j + 1) % 2 == 1 && (2 * j + 1) / 2 == j);
    }
    let scan = scan_motifs(&from_ids, &to_ids, nodes.len());
    GraphMotifs { nodes, from_ids, to_ids, scan }
}

// ─── Time slots and daily rhythm ────────────────────

/// The hour of day and the day of the week (counted from the epoch's
/// weekday) of a time in milliseconds.
pub open spec fn slot_of(ts_ms: u64) -> (u8, u8) {
    ((((ts_ms / 1000) / 3600) % 24) as u8, (((ts_ms / 1000) / 86400) % 7) as u8)
}

/// The slot of a time: hour of day and day of week.
pub fn time_slot(ts_ms: u64) -> (r: (u8, u8))
    ensures
        r == slot_of(ts_ms),
{
    let secs: u64 = ts_ms / 1000;
    (((secs / 3600) % 24) as u8, ((secs / 86400) % 7) as u8)
}

/// The positions below `k` at which `s` holds `x`, in order.
pub open spec fn positions_of<A>(s: Seq<A>, x: A, k: int) -> Seq<usize>
    decreases k,
{
    if k <= 0 {
        Seq::empty()
    } else {
        positions_of(s, x, k - 1) + if s[k - 1] == x {
            seq![(k - 1) as usize]
        } else {
            Seq::<usize>::empty()
        }
    }
}

/// The slot of each time.
pub open spec fn slots_of(ts: Seq<u64>) -> Seq<(u8, u8)> {
    ts.map_values(|t: u64| slot_of(t))
}

/// A slot with the positions of the events in it.
pub struct SlotGroup {
    pub slot: (u8, u8),
    pub events: Vec<usize>,
}

/// Groups events by slot: the distinct slots in the order they first
/// occur, each with the positions of its events in order.
pub fn slot_groups(timestamps: &Vec<u64>) -> (r: Vec<SlotGroup>)
    ensures
        r@.map_values(|g: SlotGroup| g.slot) == distinct_in_order(slots_of(timestamps@)),
        forall|j: int| 0 <= j < r@.len() ==> #[trigger] r@[j].events@ == positions_of(
            slots_of(timestamps@),
            r@[j].slot,
            timestamps@.len() as int,
        ),
{
    let ghost all = slots_of(timestamps@);
    let mut keys: Vec<(u8, u8)> = Vec::new();
    let mut lists: Vec<Vec<usize>> = Vec::new();
    let mut i: usize = 0;
    while i < timestamps.len()
        invariant
            i <= timestamps@.len(),
            all == slots_of(timestamps@),
            keys@ == distinct_in_order(all.take(i as int)),
            lists@.len() == keys@.len(),
            forall|j: int| 0 <= j < keys@.len() ==> #[trigger] lists@[j]@ == positions_of(all, keys@[j], i as int),
        decreases timestamps.len() - i,
    {
        let slot = time_slot(timestamps[i]);
        assert(all[i as int] == slot);
        assert(all.take(i + 1).drop_last() =~= all.take(i as int));
        assert(all.take(i + 1).last() == slot);
        let mut j: usize = 0;
        let mut found: bool = false;
        while j < keys.len()
            invariant_except_break
                !found,
            invariant
                j <= keys@.len(),
                forall|t: int| 0 <= t < j ==> keys@[t] != slot,
            ensures
                found ==> j < keys@.len() && keys@[j as int] == slot,
                !found ==> forall|t: int| 0 <= t < keys@.len() ==> keys@[t] != slot,
            decreases keys.len() - j,
        {
            if keys[j].0 == slot.0 && keys[j].1 == slot.1 {
                found = true;
                break;
            }
            j = j + 1;
        }
        let ghost before = lists@;
        if found {
            assert(distinct_in_order(all.take(i as int)).contains(slot));
            lists[j].push(i);
            assert forall|m: int| 0 <= m < keys@.len() implies #[trigger] lists@[m]@ == positions_of(all, keys@[m], i + 1) by {
                if m == j as int {
                    assert(lists@[m]@ =~= before[m]@.push(i));
                    assert(positions_of(all, keys@[m], i + 1) =~= positions_of(all, keys@[m], i as int) + seq![i]);
                } else {
                    assert(lists@[m] == before[m]);
                    assert(keys@[m] != slot) by {
                        lemma_distinct_in_order(all.take(i as int));
                    }
                    assert(positions_of(all, keys@[m], i + 1) =~= positions_of(all, keys@[m], i as int) + Seq::<usize>::empty());
                }
            }
        } else {
            assert(!distinct_in_order(all.take(i as int)).contains(slot));
            let ghost old_keys = keys@;
            keys.push(slot);
            let mut fresh: Vec<usize> = Vec::new();
            fresh.push(i);
            lists.push(fresh);
            assert forall|m: int| 0 <= m < keys@.len() implies #[trigger] lists@[m]@ == positions_of(all, keys@[m], i + 1) by {
                if m < old_keys.len() {
                    assert(lists@[m] == before[m]);
                    assert(keys@[m] == old_keys[m]);
                    assert(old_keys[m] != slot) by {
                        assert(old_keys.contains(old_keys[m]));
                    }
                    assert(positions_of(all, keys@[m], i + 1) =~= positions_of(all, keys@[m], i as int) + Seq::<usize>::empty());
                } else {
                    lemma_distinct_in_order(all.take(i as int));
                    assert forall|t: int| 0 <= t < i implies all[t] != slot by {
                        assert(all.take(i as int)[t] == all[t]);
                        if all[t] == slot {
                            assert(all.take(i as int).contains(slot));
                        }
                    }
                    lemma_positions_absent(all, slot, i as int);
                    assert(positions_of(all, slot, i + 1) =~= positions_of(all, slot, i as int) + seq![i]);
                    assert(lists@[m]@ =~= seq![i]);
                }
            }
        }
        i = i + 1;
    }
    assert(all.take(timestamps@.len() as int) =~= all);
    let mut r: Vec<SlotGroup> = Vec::new();
    let n: usize = keys.len();
    let mut k: usize = 0;
    while k < n
        invariant
            k <= n,
            n == keys@.len(),
            lists@.len() == n,
            keys@ == distinct_in_order(all),
            forall|j: int| 0 <= j < n ==> #[trigger] lists@[j]@ == positions_of(all, keys@[j], timestamps@.len() as int),
            r@.len() == k,
            forall|j: int| 0 <= j < k ==> #[trigger] r@[j].slot == keys@[j] && r@[j].events@ == lists@[j]@,
        decreases n - k,
    {
        r.push(SlotGroup { slot: keys[k], events: copy_ids(&lists[k]) });
        k = k + 1;
    }
    assert(r@.map_values(|g: SlotGroup| g.slot) =~= keys@);
    r
}

proof fn lemma_positions_absent<A>(s: Seq<A>, x: A, k: int)
    requires
        0 <= k <= s.len(),
        forall|t: int| 0 <= t < k ==> s[t] != x,
    ensures
        positions_of(s, x, k) == Seq::<usize>::empty(),
    decreases k,
{
    if k > 0 {
        lemma_positions_absent(s, x, k - 1);
        assert(positions_of(s, x, k) =~= Seq::<usize>::empty() + Seq::<usize>::empty());
    }
}

/// The parts of the day: name, first hour, last hour (both included).
pub open spec fn day_part_hours(i: int) -> (u8, u8) {
    if i == 0 {
        (6, 12)
    } else if i == 1 {
        (12, 18)
    } else if i == 2 {
        (18, 23)
    } else {
        (0, 6)
    }
}

/// The name and hours of part `i` of the day: morning, afternoon, evening,
/// small hours.
pub fn day_part(i: usize) -> (r: (&'static str, u8, u8))
    requires
        i < 4,
    ensures
        (r.1, r.2) == day_part_hours(i as int),
        r.0@ == if i == 0 {
            "reggel"@
        } else if i == 1 {
            "delutan"@
        } else if i == 2 {
            "este"@
        } else {
            "hajnal"@
        },
{
    if i == 0 {
        ("reggel", 6, 12)
    } else if i == 1 {
        ("delutan", 12, 18)
    } else if i == 2 {
        ("este", 18, 23)
    } else {
        ("hajnal", 0, 6)
    }
}

/// How many of the first `k` times fall in an hour from `start` to `end`.
pub open spec fn count_in_hours(ts: Seq<u64>, start: u8, end: u8, k: int) -> nat
    decreases k,
{
    if k <= 0 {
        0
    } else {
        count_in_hours(ts, start, end, k - 1) + if start <= slot_of(ts[k - 1]).0 <= end {
            1nat
        } else {
            0nat
        }
    }
}

/// The parts of the day from `i` on that hold events, and more than two
/// fifths of all of them, each with its count.
pub open spec fn rhythms_from(ts: Seq<u64>, i: int) -> Seq<(usize, usize)>
    decreases 4 - i,
{
    if i >= 4 || i < 0 {
        Seq::empty()
    } else {
        let c = count_in_hours(ts, day_part_hours(i).0, day_part_hours(i).1, ts.len() as int);
        (if c > 0 && 5 * c > 2 * ts.len() {
            seq![(i as usize, c as usize)]
        } else {
            Seq::<(usize, usize)>::empty()
        }) + rhythms_from(ts, i + 1)
    }
}

proof fn lemma_count_in_hours_le(ts: Seq<u64>, start: u8, end: u8, k: int)
    ensures
        count_in_hours(ts, start, end, k) <= if k < 0 { 0 } else { k },
    decreases k,
{
    if k > 0 {
        lemma_count_in_hours_le(ts, start, end, k - 1);
    }
}

/// The daily rhythms of a set of event times: each part of the day (in the
/// order morning, afternoon, evening, small hours) whose events are more
/// than two fifths of all, with its number of events.
pub fn daily_rhythms(timestamps: &Vec<u64>) -> (r: Vec<(usize, usize)>)
    ensures
        r@ == rhythms_from(timestamps@, 0),
{
    let n: usize = timestamps.len();
    let mut out: Vec<(usize, usize)> = Vec::new();
    let mut p: usize = 0;
    let ghost all = rhythms_from(timestamps@, 0);
    assert(out@ + all =~= all);
    while p < 4
        invariant
            p <= 4,
            n == timestamps@.len(),
            all == rhythms_from(timestamps@, 0),
            all == out@ + rhythms_from(timestamps@, p as int),
        decreases 4 - p,
    {
        let (_, start, end) = day_part(p);
        let mut c: usize = 0;
        let mut i: usize = 0;
        while i < n
            invariant
                i <= n,
                n == timestamps@.len(),
                c == count_in_hours(timestamps@, start, end, i as int),
                c <= i,
            decreases n - i,
        {
            let (h, _) = time_slot(timestamps[i]);
            if start <= h && h <= end {
                c = c + 1;
            }
            i = i + 1;
        }
        let ghost rest = rhythms_from(timestamps@, p + 1);
        if c > 0 && (c as u128) * 5 > 2 * (n as u128) {
            out.push((p, c));
            assert(all =~= out@ + rest);
        } else {
            assert(all =~= out@ + rest);
        }
        p = p + 1;
    }
    assert(rhythms_from(timestamps@, 4) =~= Seq::<(usize, usize)>::empty());
    assert(out@ + Seq::<(usize, usize)>::empty() =~= out@);
    out
}

// ─── Recurring runs in a sequence ───────────────────

/// The runs of `len` consecutive items of `e`, by starting position.
pub open spec fn windows_of_len<A>(e: Seq<A>, len: int) -> Seq<Seq<A>> {
    if len <= 0 || len > e.len() {
        Seq::empty()
    } else {
        Seq::new((e.len() - len + 1) as nat, |p: int| e.subrange(p, p + len))
    }
}

/// The runs of lengths `lo` up to `hi - 1`, shorter ones first.
pub open spec fn windows_between<A>(e: Seq<A>, lo: int, hi: int) -> Seq<Seq<A>>
    decreases hi - lo,
{
    if hi <= lo {
        Seq::empty()
    } else {
        windows_between(e, lo, hi - 1) + windows_of_len(e, hi - 1)
    }
}

/// How often `x` occurs in `s`.
pub open spec fn count_in<A>(s: Seq<A>, x: A) -> nat
    decreases s.len(),
{
    if s.len() == 0 {
        0
    } else {
        count_in(s.drop_last(), x) + if s.last() == x {
            1nat
        } else {
            0nat
        }
    }
}

/// The longest run counted: the window, the sequence's length and five,
/// whichever is least.
pub open spec fn longest_run(window: usize, n: int) -> int {
    let a = if (window as int) < n { window as int } else { n };
    if a < 5 { a } else { 5 }
}

/// A run of items with the number of times it occurs.
pub struct RunCount {
    pub items: Vec<String>,
    pub count: usize,
}

impl View for RunCount {
    type V = (Seq<Seq<char>>, nat);

    open spec fn view(&self) -> (Seq<Seq<char>>, nat) {
        (views(self.items@), self.count as nat)
    }
}

proof fn lemma_windows_len<A>(e: Seq<A>, lo: int, hi: int)
    requires
        1 <= lo,
    ensures
        windows_between(e, lo, hi).len() <= if hi <= lo { 0 } else { (hi - lo) * e.len() },
    decreases hi - lo,
{
    if hi > lo {
        lemma_windows_len(e, lo, hi - 1);
        let n = e.len() as int;
        let k = hi - lo;
        assert((k - 1) * n + n == k * n) by (nonlinear_arith);
        assert(0 <= (k - 1) * n) by (nonlinear_arith)
            requires
                k >= 1,
                n >= 0,
        ;
    }
}

proof fn lemma_count_le<A>(s: Seq<A>, x: A)
    ensures
        count_in(s, x) <= s.len(),
    decreases s.len(),
{
    if s.len() > 0 {
        lemma_count_le(s.drop_last(), x);
    }
}

/// Whether `key` holds the run of `len` items of `e` from `p`.
fn same_run(key: &Vec<String>, e: &Vec<String>, p: usize, len: usize) -> (r: bool)
    requires
        p + len <= e@.len(),
    ensures
        r == (views(key@) == views(e@).subrange(p as int, p + len)),
{
    if key.len() != len {
        assert(views(key@).len() != views(e@).subrange(p as int, p + len).len());
        return false;
    }
    let mut i: usize = 0;
    while i < len
        invariant
            i <= len,
            key@.len() == len,
            p + len <= e.len(),
            forall|t: int| 0 <= t < i ==> key@[t]@ == e@[p + t]@,
        decreases len - i,
    {
        if !str_eq(key[i].as_str(), e[p + i].as_str()) {
            assert(views(key@)[i as int] != views(e@).subrange(p as int, p + len)[i as int]);
            return false;
        }
        i = i + 1;
    }
    assert(views(key@) =~= views(e@).subrange(p as int, p + len));
    true
}

fn copy_run(e: &Vec<String>, p: usize, len: usize) -> (r: Vec<String>)
    requires
        p + len <= e@.len(),
    ensures
        views(r@) == views(e@).subrange(p as int, p + len),
{
    let mut r: Vec<String> = Vec::new();
    let mut i: usize = 0;
    while i < len
        invariant
            i <= len,
            p + len <= e.len(),
            views(r@) == views(e@).subrange(p as int, p + i),
        decreases len - i,
    {
        let ghost before = r@;
        let x = e[p + i].clone();
        assert(x@ == e@[p + i]@);
        r.push(x);
        assert(views(r@) =~= views(before).push(x@));
        assert(views(e@).subrange(p as int, p + i + 1) =~= views(e@).subrange(p as int, p + i).push(e@[p + i]@));
        i = i + 1;
    }
    r
}

/// The runs of two up to `longest_run(window, n)` consecutive items of
/// `elements`, each distinct run once in the order runs are met (shorter
/// lengths first, then by position), with how often it occurs.
pub fn count_runs(elements: &Vec<String>, window: usize) -> (r: Vec<RunCount>)
    requires
        elements@.len() <= usize::MAX / 8,
    ensures
        r@.map_values(|c: RunCount| c@.0) == distinct_in_order(
            windows_between(views(elements@), 2, longest_run(window, elements@.len() as int) + 1),
        ),
        forall|j: int| 0 <= j < r@.len() ==> #[trigger] r@[j]@.1 == count_in(
            windows_between(views(elements@), 2, longest_run(window, elements@.len() as int) + 1),
            r@[j]@.0,
        ),
{
    let ghost ev = views(elements@);
    let n: usize = elements.len();
    let top: usize = if window < n { window } else { n };
    let top: usize = if top < 5 { top } else { 5 };
    assert(top == longest_run(window, n as int));
    let mut keys: Vec<Vec<String>> = Vec::new();
    let mut counts: Vec<usize> = Vec::new();
    let ghost mut acc: Seq<Seq<Seq<char>>> = Seq::empty();
    let mut len: usize = 2;
    while len <= top
        invariant
            2 <= len <= top + 1 || (len == 2 && top < 2),
            top <= 5,
            top <= n,
            n == elements@.len(),
            n <= usize::MAX / 8,
            ev == views(elements@),
            acc == windows_between(ev, 2, len as int),
            keys@.map_values(|k: Vec<String>| views(k@)) == distinct_in_order(acc),
            counts@.len() == keys@.len(),
            forall|j: int| 0 <= j < keys@.len() ==> #[trigger] counts@[j] == count_in(acc, views(keys@[j]@)),
        decreases top + 1 - len,
    {
        let last: usize = n - len;
        let mut p: usize = 0;
        proof {
            lemma_windows_len(ev, 2, len as int);
            let k = len - 2;
            assert(k * n <= 3 * n) by (nonlinear_arith)
                requires
                    0 <= k <= 3,
                    n >= 0,
            ;
        }
        assert(windows_of_len(ev, len as int).take(0) =~= Seq::<Seq<Seq<char>>>::empty());
        assert(acc =~= windows_between(ev, 2, len as int) + windows_of_len(ev, len as int).take(0));
        while p <= last
            invariant
                2 <= len <= top,
                top <= 5,
                top <= n,
                last == n - len,
                p <= last + 1,
                n == elements@.len(),
                n <= usize::MAX / 8,
                ev == views(elements@),
                acc == windows_between(ev, 2, len as int) + windows_of_len(ev, len as int).take(p as int),
                windows_between(ev, 2, len as int).len() <= 3 * n,
                acc.len() == windows_between(ev, 2, len as int).len() + p,
                keys@.map_values(|k: Vec<String>| views(k@)) == distinct_in_order(acc),
                counts@.len() == keys@.len(),
                forall|j: int| 0 <= j < keys@.len() ==> #[trigger] counts@[j] == count_in(acc, views(keys@[j]@)),
            decreases last + 1 - p,
        {
            let ghost w = ev.subrange(p as int, p + len);
            assert(windows_of_len(ev, len as int)[p as int] == w);
            assert(windows_of_len(ev, len as int).take(p + 1) =~= windows_of_len(ev, len as int).take(p as int).push(w));
            let ghost next = acc.push(w);
            assert(next.drop_last() =~= acc);
            let ghost kv = keys@.map_values(|k: Vec<String>| views(k@));
            let mut j: usize = 0;
            let mut found: bool = false;
            while j < keys.len()
                invariant_except_break
                    !found,
                invariant
                    j <= keys@.len(),
                    p + len <= elements@.len(),
                    w == views(elements@).subrange(p as int, p + len),
                    kv == keys@.map_values(|k: Vec<String>| views(k@)),
                    forall|t: int| 0 <= t < j ==> kv[t] != w,
                ensures
                    found ==> j < keys@.len() && kv[j as int] == w,
                    !found ==> forall|t: int| 0 <= t < keys@.len() ==> kv[t] != w,
                decreases keys.len() - j,
            {
                assert(kv[j as int] == views(keys@[j as int]@));
                if same_run(&keys[j], elements, p, len) {
                    found = true;
                    break;
                }
                j = j + 1;
            }
            proof {
                lemma_count_le(acc, w);
            }
            if found {
                assert(distinct_in_order(acc).contains(w));
                assert(distinct_in_order(next) == distinct_in_order(acc));
                let ghost old_counts = counts@;
                assert(counts@[j as int] == count_in(acc, kv[j as int]));
                let c: usize = counts[j];
                counts.set(j, c + 1);
                assert forall|m: int| 0 <= m < keys@.len() implies #[trigger] counts@[m] == count_in(next, views(keys@[m]@)) by {
                    assert(kv[m] == views(keys@[m]@));
                    if m == j as int {
                    } else {
                        lemma_distinct_in_order(acc);
                        assert(kv[m] != kv[j as int]);
                        assert(counts@[m] == old_counts[m]);
                    }
                }
            } else {
                assert(!distinct_in_order(acc).contains(w)) by {
                    if distinct_in_order(acc).contains(w) {
                        let t = choose|t: int| 0 <= t < kv.len() && kv[t] == w;
                        assert(kv[t] == w);
                    }
                }
                let ghost old_keys = keys@;
                let ghost old_counts = counts@;
                keys.push(copy_run(elements, p, len));
                counts.push(1);
                assert(keys@.map_values(|k: Vec<String>| views(k@)) =~= kv.push(w));
                assert forall|m: int| 0 <= m < keys@.len() implies #[trigger] counts@[m] == count_in(next, views(keys@[m]@)) by {
                    if m < old_keys.len() {
                        assert(keys@[m] == old_keys[m]);
                        assert(kv[m] == views(keys@[m]@));
                        assert(kv[m] != w) by {
                            assert(kv.contains(kv[m]));
                        }
                        assert(counts@[m] == old_counts[m]);
                    } else {
                        assert(views(keys@[m]@) == w);
                        lemma_distinct_in_order(acc);
                        lemma_count_absent(acc, w);
                    }
                }
            }
            proof {
                acc = next;
            }
            p = p + 1;
        }
        assert(windows_of_len(ev, len as int).take(p as int) =~= windows_of_len(ev, len as int));
        assert(windows_between(ev, 2, len + 1) =~= windows_between(ev, 2, len as int) + windows_of_len(ev, len as int));
        len = len + 1;
    }
    assert(len as int == top + 1 || top < 2);
    assert(acc == windows_between(ev, 2, top + 1)) by {
        if top < 2 {
            assert(windows_between(ev, 2, top + 1) =~= Seq::<Seq<Seq<char>>>::empty());
            assert(windows_between(ev, 2, 2) =~= Seq::<Seq<Seq<char>>>::empty());
        }
    }
    let mut r: Vec<RunCount> = Vec::new();
    let total: usize = keys.len();
    let mut k: usize = 0;
    let ghost kv = keys@.map_values(|k: Vec<String>| views(k@));
    while k < total
        invariant
            k <= total,
            total == keys@.len(),
            counts@.len() == total,
            kv == keys@.map_values(|k: Vec<String>| views(k@)),
            forall|j: int| 0 <= j < total ==> #[trigger] counts@[j] == count_in(acc, views(keys@[j]@)),
            r@.len() == k,
            forall|j: int| 0 <= j < k ==> #[trigger] r@[j]@.0 == kv[j] && r@[j].count == counts@[j],
        decreases total - k,
    {
        let items = copy_strings(&keys[k]);
        r.push(RunCount { items, count: counts[k] });
        k = k + 1;
    }
    assert(r@.map_values(|c: RunCount| c@.0) =~= kv);
    r
}

proof fn lemma_count_absent<A>(s: Seq<A>, x: A)
    requires
        !s.contains(x),
    ensures
        count_in(s, x) == 0,
    decreases s.len(),
{
    if s.len() > 0 {
        assert(!s.drop_last().contains(x)) by {
            if s.drop_last().contains(x) {
                let t = choose|t: int| 0 <= t < s.drop_last().len() && s.drop_last()[t] == x;
                assert(s[t] == x);
            }
        }
        assert(s[s.len() - 1] == s.last());
        lemma_count_absent(s.drop_last(), x);
    }
}

fn copy_strings(v: &Vec<String>) -> (r: Vec<String>)
    ensures
        views(r@) == views(v@),
{
    let mut r: Vec<String> = Vec::new();
    let mut i: usize = 0;
    while i < v.len()
        invariant
            i <= v@.len(),
            views(r@) == views(v@).take(i as int),
        decreases v.len() - i,
    {
        let ghost before = r@;
        let x = v[i].clone();
        assert(x@ == v@[i as int]@);
        r.push(x);
        assert(views(r@) =~= views(before).push(x@));
        assert(views(v@).take(i + 1) =~= views(v@).take(i as int).push(v@[i as int]@));
        i = i + 1;
    }
    assert(views(v@).take(v@.len() as int) =~= views(v@));
    r
}

} // verus!
