//! The laws the resolver and the pipeline obey, stated over the same spec
//! functions the executable contracts use and proved once and for all.

use vstd::prelude::*;
use crate::imports::Resolution;
use crate::imports::cat_texts;
use crate::imports::fimports;
use crate::imports::frames_ok;
use crate::imports::genuine_cycle;
use crate::imports::good_order;
use crate::imports::lemma_run;
use crate::imports::spec_resolve;
use crate::pipeline::spec_validate;
use crate::lexer::spec_lex;
use crate::parser::spec_parse;

verus! {

/// The index at which `x` stands in `order`.
spec fn pos_in(order: Seq<Seq<u8>>, x: Seq<u8>) -> int {
    choose|i: int| 0 <= i < order.len() && order[i] == x
}

/// The starting state of a walk from a known root is well formed.
proof fn lemma_init_frames(fs: Map<Seq<u8>, Seq<u8>>, root: Seq<u8>)
    requires
        fs.dom().finite(),
        fs.dom().contains(root),
    ensures
        frames_ok(fs, seq![], seq![(root, 0int)], root),
{
    let frames: Seq<(Seq<u8>, int)> = seq![(root, 0int)];
    assert(crate::imports::frame_paths(frames) =~= seq![root]);
    assert(fimports(fs, root).take(0) =~= Seq::<Seq<u8>>::empty());
    assert(fimports(fs, frames.last().0).take(frames.last().1).to_set()
        =~= Set::<Seq<u8>>::empty());
    assert(frames[0].0 == root);
}

/// Resolution is a function of the file set and the entry path alone: on
/// equal file maps and equal roots it yields the same outcome, so repeated
/// runs on unchanged files give identical merge order and byte-identical
/// merged text. (The executable resolver's contract pins its result to
/// `spec_resolve`, so this carries over to every call.)
pub proof fn lemma_resolve_deterministic(
    fs1: Map<Seq<u8>, Seq<u8>>,
    fs2: Map<Seq<u8>, Seq<u8>>,
    root1: Seq<u8>,
    root2: Seq<u8>,
)
    requires
        fs1 == fs2,
        root1 == root2,
    ensures
        spec_resolve(fs1, root1) == spec_resolve(fs2, root2),
        match spec_resolve(fs1, root1) {
            Resolution::Done { order } => cat_texts(fs1, order) == cat_texts(fs2, order),
            _ => true,
        },
{
}

/// What each outcome of a resolution guarantees. On success the order is
/// lawful: no file twice, every file known, every import of a merged file
/// merged before it (so the order is topological), and the entry file comes
/// last. A cycle report names a genuine import cycle; a missing report
/// names a real importer and its really absent target.
pub proof fn lemma_resolve_outcome(fs: Map<Seq<u8>, Seq<u8>>, root: Seq<u8>)
    requires
        fs.dom().finite(),
        fs.dom().contains(root),
    ensures
        match spec_resolve(fs, root) {
            Resolution::Done { order } => {
                &&& good_order(fs, order)
                &&& order.len() > 0
                &&& order.last() == root
                &&& order.contains(root)
                &&& forall|i: int, t: Seq<u8>|
                    0 <= i < order.len() && #[trigger] fimports(fs, order[i]).contains(t)
                        ==> order.take(i).contains(t)
            },
            Resolution::CycleHit { chain } => genuine_cycle(fs, chain),
            Resolution::MissingHit { importer, target } => {
                &&& fs.dom().contains(importer)
                &&& !fs.dom().contains(target)
                &&& fimports(fs, importer).contains(target)
            },
        },
{
    lemma_init_frames(fs, root);
    lemma_run(fs, seq![], seq![(root, 0int)], root);
    match spec_resolve(fs, root) {
        Resolution::Done { order } => {
            assert(seq![(root, 0int)][0].0 == root);
            assert(order.contains(order[order.len() - 1]));
            assert forall|i: int, t: Seq<u8>|
                0 <= i < order.len() && #[trigger] fimports(fs, order[i]).contains(
                    t,
                ) implies order.take(i).contains(t) by {
                assert(fimports(fs, order[i]).to_set().contains(t));
                assert(order.take(i).to_set().contains(t));
            }
        },
        _ => {},
    }
}

/// In a lawful order, an import stands strictly before its importer, at
/// its one index.
proof fn lemma_import_earlier(
    fs: Map<Seq<u8>, Seq<u8>>,
    order: Seq<Seq<u8>>,
    x: Seq<u8>,
    y: Seq<u8>,
)
    requires
        good_order(fs, order),
        order.contains(x),
        fimports(fs, x).contains(y),
    ensures
        order.contains(y),
        0 <= pos_in(order, y) < pos_in(order, x) < order.len(),
        order[pos_in(order, x)] == x,
        order[pos_in(order, y)] == y,
        forall|i: int, j: int|
            0 <= i < order.len() && 0 <= j < order.len() && order[i] == y && order[j] == x ==> i
                < j,
{
    let px = pos_in(order, x);
    assert(0 <= px < order.len() && order[px] == x);
    assert(fimports(fs, order[px]).to_set().contains(y));
    assert(order.take(px).to_set().contains(y));
    let m = choose|m: int| 0 <= m < order.take(px).len() && order.take(px)[m] == y;
    assert(order[m] == y);
    assert(order.contains(y));
    let py = pos_in(order, y);
    assert(0 <= py < order.len() && order[py] == y);
    assert(py == m);
    assert forall|i: int, j: int|
        0 <= i < order.len() && 0 <= j < order.len() && order[i] == y && order[j]
            == x implies i < j by {
        assert(i == py);
        assert(j == px);
    }
}

/// Walking `k` links of an import cycle from a merged file only moves
/// earlier in the order: the index of the `k`-th member is at least `k`
/// below the first member's index.
proof fn lemma_cycle_descent(
    fs: Map<Seq<u8>, Seq<u8>>,
    order: Seq<Seq<u8>>,
    cycle: Seq<Seq<u8>>,
    k: int,
)
    requires
        good_order(fs, order),
        cycle.len() >= 1,
        order.contains(cycle[0]),
        forall|i: int|
            0 <= i < cycle.len() - 1 ==> fimports(fs, #[trigger] cycle[i]).contains(cycle[i + 1]),
        0 <= k < cycle.len(),
    ensures
        order.contains(cycle[k]),
        pos_in(order, cycle[k]) <= pos_in(order, cycle[0]) - k,
    decreases k,
{
    if k > 0 {
        lemma_cycle_descent(fs, order, cycle, k - 1);
        lemma_import_earlier(fs, order, cycle[k - 1], cycle[k]);
    }
}

/// No import cycle runs through any merged file: when resolution succeeds,
/// a chain of imports that starts at a merged file can never close back on
/// its first member, so the part of the import graph that reached the
/// merged unit is acyclic. (Contrapositively: an import graph with a cycle
/// among the files the walk would merge cannot resolve successfully.)
pub proof fn lemma_success_acyclic(
    fs: Map<Seq<u8>, Seq<u8>>,
    root: Seq<u8>,
    cycle: Seq<Seq<u8>>,
)
    requires
        fs.dom().finite(),
        fs.dom().contains(root),
        spec_resolve(fs, root) matches Resolution::Done { order } && order.contains(cycle[0]),
        cycle.len() >= 1,
        forall|i: int|
            0 <= i < cycle.len() - 1 ==> fimports(fs, #[trigger] cycle[i]).contains(cycle[i + 1]),
    ensures
        !fimports(fs, cycle.last()).contains(cycle[0]),
{
    lemma_resolve_outcome(fs, root);
    match spec_resolve(fs, root) {
        Resolution::Done { order } => {
            let last = cycle.len() - 1;
            lemma_cycle_descent(fs, order, cycle, last);
            if fimports(fs, cycle.last()).contains(cycle[0]) {
                lemma_import_earlier(fs, order, cycle[last], cycle[0]);
            }
        },
        _ => {},
    }
}

/// The diamond law: when a merged file `a` imports both `b` and `c`, and
/// each of those imports `d`, then `d` is merged exactly once (the order
/// holds no file twice) and its one position lies before both `b` and `c`.
pub proof fn lemma_diamond(
    fs: Map<Seq<u8>, Seq<u8>>,
    root: Seq<u8>,
    a: Seq<u8>,
    b: Seq<u8>,
    c: Seq<u8>,
    d: Seq<u8>,
)
    requires
        fs.dom().finite(),
        fs.dom().contains(root),
        spec_resolve(fs, root) matches Resolution::Done { order } && order.contains(a),
        fimports(fs, a).contains(b),
        fimports(fs, a).contains(c),
        fimports(fs, b).contains(d),
        fimports(fs, c).contains(d),
    ensures
        match spec_resolve(fs, root) {
            Resolution::Done { order } => {
                &&& order.contains(d)
                &&& order.no_duplicates()
                &&& forall|i: int, j: int|
                    0 <= i < order.len() && 0 <= j < order.len() && order[i] == d && order[j] == b
                        ==> i < j
                &&& forall|i: int, j: int|
                    0 <= i < order.len() && 0 <= j < order.len() && order[i] == d && order[j] == c
                        ==> i < j
            },
            _ => false,
        },
{
    lemma_resolve_outcome(fs, root);
    match spec_resolve(fs, root) {
        Resolution::Done { order } => {
            lemma_import_earlier(fs, order, a, b);
            lemma_import_earlier(fs, order, a, c);
            lemma_import_earlier(fs, order, b, d);
            lemma_import_earlier(fs, order, c, d);
        },
        _ => {
            assert(false);
        },
    }
}

/// The round-trip law: the tree the pipeline validates is exactly what an
/// independent run of the lexer and the parser yields on the persisted
/// merged text: re-validating the emitted merged source reproduces the
/// pipeline's tree.
pub proof fn lemma_round_trip(text: Seq<u8>)
    ensures
        match spec_validate(text) {
            Ok(p) => spec_lex(text) matches Ok(ts) && spec_parse(ts) == Ok::<
                crate::parser::SpecProject,
                (int, crate::errors::Expectation),
            >(p),
            Err(k) => true,
        },
{
}

} // verus!
