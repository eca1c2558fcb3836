//! The import resolver: scans each file for import directives, walks the
//! import graph depth first with an explicit in-progress stack, rejects
//! cycles and missing files, and merges the reachable files into one unit in
//! deterministic topological order (dependencies first, each file once, at
//! its first discovery).

use vstd::prelude::*;
use crate::bytes_eq;
use crate::errors::Diagnostic;
use crate::errors::SpecDiagKind;
use crate::fsmodel::FsModel;
use crate::paths::import_path;
use crate::paths::resolve_import;

verus! {

/// The first index at or after `i` holding a newline, or the length.
pub open spec fn line_end(s: Seq<u8>, i: int) -> int
    decreases s.len() - i,
        when 0 <= i
{
    if i >= s.len() {
        s.len() as int
    } else if s[i] == 10 {
        i
    } else {
        line_end(s, i + 1)
    }
}

pub proof fn lemma_line_end(s: Seq<u8>, i: int)
    requires
        0 <= i <= s.len(),
    ensures
        i <= line_end(s, i) <= s.len(),
    decreases s.len() - i,
{
    if i < s.len() && s[i] != 10 {
        lemma_line_end(s, i + 1);
    }
}

/// The lines of `s`, split on newlines.
pub open spec fn lines_from(s: Seq<u8>, i: int) -> Seq<Seq<u8>>
    decreases s.len() - i,
        when 0 <= i
        via lines_from_dec
{
    if i >= s.len() {
        seq![]
    } else {
        let j = line_end(s, i);
        if j >= s.len() {
            seq![s.subrange(i, s.len() as int)]
        } else {
            seq![s.subrange(i, j)] + lines_from(s, j + 1)
        }
    }
}

#[via_fn]
proof fn lines_from_dec(s: Seq<u8>, i: int) {
    if 0 <= i < s.len() {
        lemma_line_end(s, i);
    }
}

pub open spec fn file_lines(s: Seq<u8>) -> Seq<Seq<u8>> {
    lines_from(s, 0)
}

/// The import keyword, with its trailing space.
pub open spec fn import_kw() -> Seq<u8> {
    seq![105u8, 109u8, 112u8, 111u8, 114u8, 116u8, 32u8]
}

/// Whether a line is an import directive.
pub open spec fn is_import_line(l: Seq<u8>) -> bool {
    l.len() > 7 && l.subrange(0, 7) == import_kw()
}

/// The target path written in an import directive.
pub open spec fn import_target(l: Seq<u8>) -> Seq<u8> {
    l.subrange(7, l.len() as int)
}

/// The import targets declared in the given lines, in declaration order.
pub open spec fn imports_in_lines(ls: Seq<Seq<u8>>, i: int) -> Seq<Seq<u8>>
    decreases ls.len() - i,
        when 0 <= i
{
    if i >= ls.len() {
        seq![]
    } else if is_import_line(ls[i]) {
        seq![import_target(ls[i])] + imports_in_lines(ls, i + 1)
    } else {
        imports_in_lines(ls, i + 1)
    }
}

/// The import targets of a file's text, as written.
pub open spec fn raw_imports(s: Seq<u8>) -> Seq<Seq<u8>> {
    imports_in_lines(file_lines(s), 0)
}

/// The canonical paths a file at canonical path `p` with text `fs[p]`
/// imports, in declaration order.
pub open spec fn fimports(fs: Map<Seq<u8>, Seq<u8>>, p: Seq<u8>) -> Seq<Seq<u8>> {
    raw_imports(fs[p]).map_values(|t: Seq<u8>| resolve_import(p, t))
}

/// First index at or after `i` holding a newline, or the length.
fn find_line_end(text: &Vec<u8>, i: usize) -> (r: usize)
    requires
        i <= text@.len(),
    ensures
        r == line_end(text@, i as int),
        i <= r <= text@.len(),
{
    let mut j: usize = i;
    while j < text.len() && text[j] != 10
        invariant
            i <= j <= text@.len(),
            line_end(text@, i as int) == line_end(text@, j as int),
        decreases text@.len() - j,
    {
        j += 1;
    }
    proof {
        lemma_line_end(text@, j as int);
    }
    j
}

/// Split a text into its lines.
fn split_lines(text: &Vec<u8>) -> (r: Vec<Vec<u8>>)
    ensures
        r.deep_view() == file_lines(text@),
{
    let mut out: Vec<Vec<u8>> = Vec::new();
    let mut i: usize = 0;
    while i < text.len()
        invariant
            0 <= i <= text@.len(),
            file_lines(text@) == out.deep_view() + lines_from(text@, i as int),
        decreases text@.len() - i,
    {
        let j = find_line_end(text, i);
        let l = crate::paths::copy_range(text, i, j);
        let ghost pre = out.deep_view();
        out.push(l);
        proof {
            assert(out.deep_view() =~~= pre.push(l@));
            if j < text.len() {
                assert(lines_from(text@, i as int) == seq![l@] + lines_from(text@, j + 1));
            } else {
                assert(lines_from(text@, i as int) == seq![l@]);
                assert(lines_from(text@, text@.len() as int) =~= Seq::<Seq<u8>>::empty());
            }
        }
        if j < text.len() {
            proof {
                assert(file_lines(text@) =~~= out.deep_view() + lines_from(text@, j + 1));
            }
            i = j + 1;
        } else {
            proof {
                assert(file_lines(text@) =~~= out.deep_view() + lines_from(
                    text@,
                    text@.len() as int,
                ));
            }
            i = text.len();
        }
    }
    proof {
        assert(lines_from(text@, i as int) =~= Seq::<Seq<u8>>::empty());
        assert(file_lines(text@) =~~= out.deep_view());
    }
    out
}

/// Whether this line is an import directive.
fn line_is_import(l: &Vec<u8>) -> (r: bool)
    ensures
        r <==> is_import_line(l@),
{
    if l.len() <= 7 {
        return false;
    }
    let r = l[0] == 105 && l[1] == 109 && l[2] == 112 && l[3] == 111 && l[4] == 114 && l[5] == 116
        && l[6] == 32;
    proof {
        if r {
            assert(l@.subrange(0, 7) =~= import_kw());
        } else {
            assert(l@.subrange(0, 7) != import_kw()) by {
                if l@.subrange(0, 7) == import_kw() {
                    assert(l@.subrange(0, 7)[0] == 105);
                    assert(l@.subrange(0, 7)[1] == 109);
                    assert(l@.subrange(0, 7)[2] == 112);
                    assert(l@.subrange(0, 7)[3] == 111);
                    assert(l@.subrange(0, 7)[4] == 114);
                    assert(l@.subrange(0, 7)[5] == 116);
                    assert(l@.subrange(0, 7)[6] == 32);
                }
            }
        }
    }
    r
}

/// The canonical paths the file at canonical path `path`, with text `text`,
/// imports, in declaration order.
pub fn file_imports(path: &Vec<u8>, text: &Vec<u8>) -> (r: Vec<Vec<u8>>)
    ensures
        r.deep_view() == raw_imports(text@).map_values(|t: Seq<u8>| resolve_import(path@, t)),
{
    let ghost f = |t: Seq<u8>| resolve_import(path@, t);
    let lines = split_lines(text);
    let ghost ls = lines.deep_view();
    let mut out: Vec<Vec<u8>> = Vec::new();
    let mut i: usize = 0;
    while i < lines.len()
        invariant
            0 <= i <= ls.len(),
            ls == lines.deep_view(),
            ls.len() == lines@.len(),
            f == (|t: Seq<u8>| resolve_import(path@, t)),
            imports_in_lines(ls, 0).map_values(f) == out.deep_view() + imports_in_lines(
                ls,
                i as int,
            ).map_values(f),
        decreases ls.len() - i,
    {
        let l = &lines[i];
        proof {
            assert(ls[i as int] =~= l@);
        }
        if line_is_import(l) {
            let target = crate::paths::copy_range(l, 7, l.len());
            proof {
                assert(target@ =~= import_target(ls[i as int]));
            }
            let resolved = import_path(path, &target);
            let ghost pre = out.deep_view();
            out.push(resolved);
            proof {
                assert(out.deep_view() =~~= pre.push(f(import_target(ls[i as int]))));
                assert(imports_in_lines(ls, i as int).map_values(f) =~~= seq![
                    f(import_target(ls[i as int])),
                ] + imports_in_lines(ls, i + 1).map_values(f));
                assert(imports_in_lines(ls, 0).map_values(f) =~~= out.deep_view()
                    + imports_in_lines(ls, i + 1).map_values(f));
            }
        } else {
            proof {
                assert(imports_in_lines(ls, i as int) == imports_in_lines(ls, i + 1));
            }
        }
        i += 1;
    }
    proof {
        assert(imports_in_lines(ls, i as int).map_values(f) =~~= Seq::<Seq<u8>>::empty());
        assert(raw_imports(text@).map_values(f) =~~= out.deep_view());
    }
    out
}

} // verus!

verus! {

/// The outcome of a resolution run, over mathematical values.
pub enum Resolution {
    /// Every reachable file was merged; `order` is the merge order.
    Done { order: Seq<Seq<u8>> },
    /// An import closed a loop; `chain` names every file in it.
    CycleHit { chain: Seq<Seq<u8>> },
    /// `importer` imports `target`, which no file satisfies.
    MissingHit { importer: Seq<u8>, target: Seq<u8> },
}

/// The paths of the in-progress stack, bottom first.
pub open spec fn frame_paths(frames: Seq<(Seq<u8>, int)>) -> Seq<Seq<u8>> {
    frames.map_values(|f: (Seq<u8>, int)| f.0)
}

/// The files already merged or currently in progress.
pub open spec fn marked(done: Seq<Seq<u8>>, frames: Seq<(Seq<u8>, int)>) -> Set<Seq<u8>> {
    done.to_set() + frame_paths(frames).to_set()
}

/// How many known files the walk has not touched yet.
pub open spec fn unvisited_count(
    fs: Map<Seq<u8>, Seq<u8>>,
    done: Seq<Seq<u8>>,
    frames: Seq<(Seq<u8>, int)>,
) -> nat {
    fs.dom().difference(marked(done, frames)).len()
}

/// How much work the stack still holds: one unit per frame plus one per
/// import not yet considered.
pub open spec fn pending_count(fs: Map<Seq<u8>, Seq<u8>>, frames: Seq<(Seq<u8>, int)>) -> int
    decreases frames.len(),
{
    if frames.len() == 0 {
        0
    } else {
        let f = frames.last();
        let n = fimports(fs, f.0).len() as int;
        pending_count(fs, frames.drop_last()) + 1 + (if 0 <= f.1 <= n {
            n - f.1
        } else {
            0
        })
    }
}

pub proof fn lemma_pending_nonneg(fs: Map<Seq<u8>, Seq<u8>>, frames: Seq<(Seq<u8>, int)>)
    ensures
        pending_count(fs, frames) >= 0,
    decreases frames.len(),
{
    if frames.len() > 0 {
        lemma_pending_nonneg(fs, frames.drop_last());
    }
}

/// One depth-first resolution walk, run to its end. The top frame's next
/// import is looked at: a missing file or a file already in progress stops
/// the walk; a merged file is skipped; a fresh file is pushed. A frame whose
/// imports are exhausted is popped and its file appended to the merge order,
/// so every dependency of a file stands before it.
pub open spec fn run(
    fs: Map<Seq<u8>, Seq<u8>>,
    done: Seq<Seq<u8>>,
    frames: Seq<(Seq<u8>, int)>,
) -> Resolution
    decreases unvisited_count(fs, done, frames), pending_count(fs, frames),
        when fs.dom().finite()
        via run_dec
{
    if frames.len() == 0 {
        Resolution::Done { order: done }
    } else {
        let f = frames.last();
        let imps = fimports(fs, f.0);
        if f.1 < 0 || f.1 >= imps.len() {
            run(fs, done.push(f.0), frames.drop_last())
        } else {
            let t = imps[f.1];
            if !fs.dom().contains(t) {
                Resolution::MissingHit { importer: f.0, target: t }
            } else if frame_paths(frames).contains(t) {
                Resolution::CycleHit {
                    chain: frame_paths(frames).skip(frame_paths(frames).index_of(t)),
                }
            } else {
                let frames2 = frames.update(frames.len() - 1, (f.0, f.1 + 1));
                if done.contains(t) {
                    run(fs, done, frames2)
                } else {
                    run(fs, done, frames2.push((t, 0)))
                }
            }
        }
    }
}

#[via_fn]
#[verifier::rlimit(100)]
proof fn run_dec(fs: Map<Seq<u8>, Seq<u8>>, done: Seq<Seq<u8>>, frames: Seq<(Seq<u8>, int)>) {
    if frames.len() > 0 {
        let f = frames.last();
        let imps = fimports(fs, f.0);
        lemma_pending_nonneg(fs, frames.drop_last());
        if f.1 < 0 || f.1 >= imps.len() {
            // popping moves the top path from the stack side to the done side
            assert(marked(done.push(f.0), frames.drop_last()) =~= marked(done, frames)) by {
                assert(frame_paths(frames).drop_last() =~= frame_paths(frames.drop_last()));
                assert(frame_paths(frames)[frames.len() - 1] == f.0);
                assert forall|p: Seq<u8>| marked(done, frames).contains(p) implies marked(
                    done.push(f.0),
                    frames.drop_last(),
                ).contains(p) by {
                    if frame_paths(frames).to_set().contains(p) {
                        let k = choose|k: int|
                            0 <= k < frame_paths(frames).len() && frame_paths(frames)[k] == p;
                        if k < frames.len() - 1 {
                            assert(frame_paths(frames.drop_last())[k] == p);
                        } else {
                            assert(done.push(f.0).last() == p);
                        }
                    } else {
                        let k = choose|k: int| 0 <= k < done.len() && done[k] == p;
                        assert(done.push(f.0)[k] == p);
                    }
                }
                assert forall|p: Seq<u8>| marked(done.push(f.0), frames.drop_last()).contains(p)
                    implies marked(done, frames).contains(p) by {
                    if done.push(f.0).to_set().contains(p) {
                        let k = choose|k: int|
                            0 <= k < done.push(f.0).len() && done.push(f.0)[k] == p;
                        if k < done.len() {
                            assert(done[k] == p);
                        } else {
                            assert(frame_paths(frames)[frames.len() - 1] == p);
                        }
                    } else {
                        let k = choose|k: int|
                            0 <= k < frame_paths(frames.drop_last()).len() && frame_paths(
                                frames.drop_last(),
                            )[k] == p;
                        assert(frame_paths(frames)[k] == p);
                    }
                }
            }
        } else {
            let t = imps[f.1];
            let frames2 = frames.update(frames.len() - 1, (f.0, f.1 + 1));
            assert(frame_paths(frames2) =~= frame_paths(frames));
            assert(marked(done, frames2) =~= marked(done, frames));
            assert(frames2.drop_last() =~= frames.drop_last());
            if fs.dom().contains(t) && !frame_paths(frames).contains(t) {
                lemma_pending_nonneg(fs, frames2);
                if done.contains(t) {
                    assert(pending_count(fs, frames2) == pending_count(fs, frames) - 1);
                } else {
                    let frames3 = frames2.push((t, 0));
                    // a fresh file leaves the unvisited set
                    assert(!marked(done, frames).contains(t)) by {
                        if done.to_set().contains(t) {
                            assert(done.contains(t));
                        }
                    }
                    assert(marked(done, frames3) =~= marked(done, frames).insert(t)) by {
                        assert(frame_paths(frames3) =~= frame_paths(frames2).push(t));
                        assert forall|p: Seq<u8>| marked(done, frames3).contains(p) implies marked(
                            done,
                            frames,
                        ).insert(t).contains(p) by {
                            if frame_paths(frames3).to_set().contains(p) {
                                let k = choose|k: int|
                                    0 <= k < frame_paths(frames3).len() && frame_paths(
                                        frames3,
                                    )[k] == p;
                                if k < frames2.len() {
                                    assert(frame_paths(frames2)[k] == p);
                                }
                            }
                        }
                        assert forall|p: Seq<u8>|
                            marked(done, frames).insert(t).contains(p) implies marked(
                            done,
                            frames3,
                        ).contains(p) by {
                            if p == t {
                                assert(frame_paths(frames3)[frames3.len() - 1] == t);
                            } else if frame_paths(frames).to_set().contains(p) {
                                let k = choose|k: int|
                                    0 <= k < frame_paths(frames).len() && frame_paths(
                                        frames,
                                    )[k] == p;
                                assert(frame_paths(frames3)[k] == p);
                            }
                        }
                    }
                    assert(fs.dom().difference(marked(done, frames3)) =~= fs.dom().difference(
                        marked(done, frames),
                    ).remove(t));
                    assert(fs.dom().difference(marked(done, frames)).contains(t));
                    assert(fs.dom().difference(marked(done, frames)).finite());
                    assert(unvisited_count(fs, done, frames3) < unvisited_count(fs, done, frames));
                }
            }
        }
    }
}

/// The resolution of the import graph rooted at `root`.
pub open spec fn spec_resolve(fs: Map<Seq<u8>, Seq<u8>>, root: Seq<u8>) -> Resolution {
    run(fs, seq![], seq![(root, 0)])
}

/// The texts of the files in `order`, concatenated.
pub open spec fn cat_texts(fs: Map<Seq<u8>, Seq<u8>>, order: Seq<Seq<u8>>) -> Seq<u8>
    decreases order.len(),
{
    if order.len() == 0 {
        seq![]
    } else {
        cat_texts(fs, order.drop_last()) + fs[order.last()]
    }
}

} // verus!

verus! {

/// A lawful merge order: no file twice, every file known, and every import
/// of a file merged before the file itself.
pub open spec fn good_order(fs: Map<Seq<u8>, Seq<u8>>, order: Seq<Seq<u8>>) -> bool {
    &&& order.no_duplicates()
    &&& forall|i: int| 0 <= i < order.len() ==> fs.dom().contains(#[trigger] order[i])
    &&& forall|i: int|
        0 <= i < order.len() ==> fimports(fs, #[trigger] order[i]).to_set() <= order.take(
            i,
        ).to_set()
}

/// A genuine import cycle: consecutive files import each other and the last
/// imports the first.
pub open spec fn genuine_cycle(fs: Map<Seq<u8>, Seq<u8>>, chain: Seq<Seq<u8>>) -> bool {
    &&& chain.len() >= 1
    &&& chain.no_duplicates()
    &&& forall|i: int| 0 <= i < chain.len() ==> fs.dom().contains(#[trigger] chain[i])
    &&& forall|i: int|
        0 <= i < chain.len() - 1 ==> fimports(fs, #[trigger] chain[i]).contains(chain[i + 1])
    &&& fimports(fs, chain.last()).contains(chain[0])
}

/// The well-formedness a walk state keeps: stack and merge order hold known
/// files only, none twice, the stack is a chain of imports starting at the
/// root, every import already looked at is merged or is the file directly
/// above on the stack, and every import of a merged file is merged earlier.
pub open spec fn frames_ok(
    fs: Map<Seq<u8>, Seq<u8>>,
    done: Seq<Seq<u8>>,
    frames: Seq<(Seq<u8>, int)>,
    root: Seq<u8>,
) -> bool {
    &&& fs.dom().finite()
    &&& forall|i: int| 0 <= i < done.len() ==> fs.dom().contains(#[trigger] done[i])
    &&& done.no_duplicates()
    &&& forall|i: int|
        0 <= i < done.len() ==> fimports(fs, #[trigger] done[i]).to_set() <= done.take(i).to_set()
    &&& forall|i: int| 0 <= i < frames.len() ==> fs.dom().contains((#[trigger] frames[i]).0)
    &&& frame_paths(frames).no_duplicates()
    &&& forall|i: int| 0 <= i < frames.len() ==> !done.contains((#[trigger] frames[i]).0)
    &&& forall|i: int|
        0 <= i < frames.len() ==> 0 <= (#[trigger] frames[i]).1 <= fimports(fs, frames[i].0).len()
    &&& forall|i: int|
        0 <= i < frames.len() - 1 ==> fimports(fs, (#[trigger] frames[i]).0).take(
            frames[i].1,
        ).to_set() <= done.to_set().insert(frames[i + 1].0)
    &&& (frames.len() > 0 ==> fimports(fs, frames.last().0).take(frames.last().1).to_set()
        <= done.to_set())
    &&& forall|i: int|
        1 <= i < frames.len() ==> fimports(fs, frames[i - 1].0).contains((#[trigger] frames[i]).0)
    &&& (frames.len() > 0 ==> frames[0].0 == root)
}

/// Every property the walk guarantees of its outcome, by induction over the
/// walk: a lawful, root-terminated order on success, a genuine cycle on a
/// cycle report, and an attributable missing import on a missing report.
#[verifier::rlimit(100)]
pub proof fn lemma_run(
    fs: Map<Seq<u8>, Seq<u8>>,
    done: Seq<Seq<u8>>,
    frames: Seq<(Seq<u8>, int)>,
    root: Seq<u8>,
)
    requires
        frames_ok(fs, done, frames, root),
    ensures
        match run(fs, done, frames) {
            Resolution::Done { order } => {
                &&& done.is_prefix_of(order)
                &&& good_order(fs, order)
                &&& forall|i: int| 0 <= i < frames.len() ==> order.contains((#[trigger] frames[i]).0)
                &&& (frames.len() == 0 ==> order == done)
                &&& (frames.len() > 0 ==> order.len() > 0 && order.last() == root)
            },
            Resolution::CycleHit { chain } => genuine_cycle(fs, chain),
            Resolution::MissingHit { importer, target } => {
                &&& fs.dom().contains(importer)
                &&& !fs.dom().contains(target)
                &&& fimports(fs, importer).contains(target)
            },
        },
    decreases unvisited_count(fs, done, frames), pending_count(fs, frames),
{
    if frames.len() == 0 {
        assert(run(fs, done, frames) == Resolution::Done { order: done });
        assert(done.is_prefix_of(done));
    } else {
        let f = frames.last();
        let imps = fimports(fs, f.0);
        lemma_pending_nonneg(fs, frames.drop_last());
        if f.1 < 0 || f.1 >= imps.len() {
            // exhausted: pop the top frame and append its file
            let done2 = done.push(f.0);
            let frames2 = frames.drop_last();
            assert(run(fs, done, frames) == run(fs, done2, frames2));
            lemma_marked_pop(done, frames);
            assert(unvisited_count(fs, done2, frames2) == unvisited_count(fs, done, frames));
            assert(pending_count(fs, frames2) < pending_count(fs, frames));
            assert(f.1 == imps.len());
            lemma_frames_pop_ok(fs, done, frames, root);
            lemma_run(fs, done2, frames2, root);
            match run(fs, done2, frames2) {
                Resolution::Done { order } => {
                    assert(done.is_prefix_of(order)) by {
                        assert(done2.is_prefix_of(order));
                        assert forall|i: int| 0 <= i < done.len() implies done[i] == order[i] by {
                            assert(done2[i] == done[i]);
                            assert(order.take(done2.len() as int)[i] == order[i]);
                        }
                        assert(done =~= order.take(done.len() as int));
                    }
                    assert forall|i: int| 0 <= i < frames.len() implies order.contains(
                        (#[trigger] frames[i]).0,
                    ) by {
                        if i < frames.len() - 1 {
                            assert(frames2[i] == frames[i]);
                        } else {
                            assert(done2.is_prefix_of(order));
                            assert(order.take(done2.len() as int)[done.len() as int] == f.0);
                            assert(order[done.len() as int] == f.0);
                        }
                    }
                    if frames.len() > 0 && frames2.len() == 0 {
                        assert(order == done2);
                        assert(order.last() == f.0);
                        assert(frames[0] == frames.last());
                    }
                },
                Resolution::CycleHit { chain } => {},
                Resolution::MissingHit { importer, target } => {},
            }
        } else {
            let t = imps[f.1];
            assert(imps.contains(t));
            if !fs.dom().contains(t) {
                assert(run(fs, done, frames) == (Resolution::MissingHit {
                    importer: f.0,
                    target: t,
                }));
            } else if frame_paths(frames).contains(t) {
                let fp = frame_paths(frames);
                let k = fp.index_of(t);
                assert(0 <= k < fp.len() && fp[k] == t);
                let chain = fp.skip(k);
                assert(run(fs, done, frames) == (Resolution::CycleHit { chain }));
                assert(genuine_cycle(fs, chain)) by {
                    assert(chain.len() == fp.len() - k >= 1);
                    assert forall|i: int, j: int|
                        0 <= i < chain.len() && 0 <= j < chain.len() && i != j implies chain[i]
                        != chain[j] by {
                        assert(chain[i] == fp[k + i]);
                        assert(chain[j] == fp[k + j]);
                    }
                    assert forall|i: int| 0 <= i < chain.len() implies fs.dom().contains(
                        #[trigger] chain[i],
                    ) by {
                        assert(chain[i] == fp[k + i]);
                        assert(fp[k + i] == frames[k + i].0);
                    }
                    assert forall|i: int| 0 <= i < chain.len() - 1 implies fimports(
                        fs,
                        #[trigger] chain[i],
                    ).contains(chain[i + 1]) by {
                        assert(chain[i] == frames[k + i].0);
                        assert(chain[i + 1] == frames[k + i + 1].0);
                    }
                    assert(chain.last() == fp[fp.len() - 1]);
                    assert(fp[fp.len() - 1] == f.0);
                    assert(chain[0] == fp[k]);
                }
            } else {
                let frames2 = frames.update(frames.len() - 1, (f.0, f.1 + 1));
                lemma_marked_update(done, frames, (f.0, f.1 + 1));
                assert(frames2.last() == (f.0, f.1 + 1));
                assert(imps.take(f.1 + 1) =~= imps.take(f.1).push(t));
                lemma_to_set_push(imps.take(f.1), t);
                assert(imps.take(f.1 + 1).to_set() == imps.take(f.1).to_set().insert(t));
                if done.contains(t) {
                    assert(run(fs, done, frames) == run(fs, done, frames2));
                    assert(unvisited_count(fs, done, frames2) == unvisited_count(fs, done, frames));
                    lemma_pending_nonneg(fs, frames2.drop_last());
                    assert(frames2.drop_last() =~= frames.drop_last());
                    assert(pending_count(fs, frames2) < pending_count(fs, frames));
                    assert(frames_ok(fs, done, frames2, root)) by {
                        lemma_frames_update_ok(fs, done, frames, root, t);
                    }
                    lemma_run(fs, done, frames2, root);
                    match run(fs, done, frames2) {
                        Resolution::Done { order } => {
                            assert forall|i: int| 0 <= i < frames.len() implies order.contains(
                                (#[trigger] frames[i]).0,
                            ) by {
                                if i < frames.len() - 1 {
                                    assert(frames2[i] == frames[i]);
                                } else {
                                    assert(frames2[i].0 == frames[i].0);
                                }
                            }
                            assert(frames2[0].0 == frames[0].0);
                        },
                        _ => {},
                    }
                } else {
                    let frames3 = frames2.push((t, 0));
                    assert(run(fs, done, frames) == run(fs, done, frames3));
                    lemma_marked_push(done, frames2, t);
                    assert(!marked(done, frames).contains(t)) by {
                        if done.to_set().contains(t) {
                        }
                    }
                    assert(unvisited_count(fs, done, frames3) < unvisited_count(fs, done, frames))
                        by {
                        assert(fs.dom().difference(marked(done, frames3)) =~= fs.dom().difference(
                            marked(done, frames),
                        ).remove(t));
                        assert(fs.dom().difference(marked(done, frames)).contains(t));
                    }
                    assert(frames_ok(fs, done, frames3, root)) by {
                        lemma_frames_update_ok(fs, done, frames, root, t);
                        lemma_frames_push_ok(fs, done, frames2, root, t);
                    }
                    lemma_run(fs, done, frames3, root);
                    match run(fs, done, frames3) {
                        Resolution::Done { order } => {
                            assert forall|i: int| 0 <= i < frames.len() implies order.contains(
                                (#[trigger] frames[i]).0,
                            ) by {
                                if i < frames.len() - 1 {
                                    assert(frames3[i] == frames[i]);
                                } else {
                                    assert(frames3[i].0 == frames[i].0);
                                }
                            }
                            assert(frames3[0].0 == frames[0].0);
                        },
                        _ => {},
                    }
                }
            }
        }
    }
}


/// Popping an exhausted top frame onto the merge order preserves
/// well-formedness.
#[verifier::rlimit(100)]
proof fn lemma_frames_pop_ok(
    fs: Map<Seq<u8>, Seq<u8>>,
    done: Seq<Seq<u8>>,
    frames: Seq<(Seq<u8>, int)>,
    root: Seq<u8>,
)
    requires
        frames_ok(fs, done, frames, root),
        frames.len() > 0,
        frames.last().1 == fimports(fs, frames.last().0).len(),
    ensures
        frames_ok(fs, done.push(frames.last().0), frames.drop_last(), root),
{
    let f = frames.last();
    let imps = fimports(fs, f.0);
    let done2 = done.push(f.0);
    let frames2 = frames.drop_last();
    assert(frame_paths(frames)[frames.len() - 1] == f.0);
    assert(!done.contains(f.0));
    assert(done2.to_set() =~= done.to_set().insert(f.0)) by {
        assert forall|p: Seq<u8>| done2.to_set().contains(p) implies done.to_set().insert(
            f.0,
        ).contains(p) by {
            let k = choose|k: int| 0 <= k < done2.len() && done2[k] == p;
            if k < done.len() {
                assert(done[k] == p);
            }
        }
        assert forall|p: Seq<u8>| done.to_set().insert(f.0).contains(p) implies done2.to_set()
            .contains(p) by {
            if p == f.0 {
                assert(done2[done.len() as int] == p);
            } else {
                let k = choose|k: int| 0 <= k < done.len() && done[k] == p;
                assert(done2[k] == p);
            }
        }
    }
    assert(done.to_set() <= done2.to_set());
    assert forall|i: int| 0 <= i < done2.len() implies fs.dom().contains(
        #[trigger] done2[i],
    ) by {
        if i < done.len() {
            assert(done2[i] == done[i]);
        } else {
            assert(done2[i] == f.0);
        }
    }
    assert forall|i: int, j: int|
        0 <= i < done2.len() && 0 <= j < done2.len() && i != j implies done2[i] != done2[j] by {
        if i < done.len() && j < done.len() {
            assert(done2[i] == done[i]);
            assert(done2[j] == done[j]);
        } else if i < done.len() {
            assert(done2[i] == done[i]);
            assert(done2[j] == f.0);
            if done2[i] == done2[j] {
                assert(done.contains(f.0));
            }
        } else if j < done.len() {
            assert(done2[j] == done[j]);
            assert(done2[i] == f.0);
            if done2[i] == done2[j] {
                assert(done.contains(f.0));
            }
        }
    }
    assert forall|i: int| 0 <= i < done2.len() implies fimports(fs, #[trigger] done2[i]).to_set()
        <= done2.take(i).to_set() by {
        if i < done.len() {
            assert(done2.take(i) =~= done.take(i));
            assert(done2[i] == done[i]);
        } else {
            assert(done2[i] == f.0);
            assert(imps.take(f.1) =~= imps);
            assert(done2.take(i) =~= done);
        }
    }
    assert forall|i: int| 0 <= i < frames2.len() implies fs.dom().contains(
        (#[trigger] frames2[i]).0,
    ) by {
        assert(frames2[i] == frames[i]);
    }
    assert(frame_paths(frames2) =~= frame_paths(frames).drop_last());
    assert forall|i: int, j: int|
        0 <= i < frame_paths(frames2).len() && 0 <= j < frame_paths(frames2).len() && i
            != j implies frame_paths(frames2)[i] != frame_paths(frames2)[j] by {
        assert(frame_paths(frames)[i] == frame_paths(frames2)[i]);
        assert(frame_paths(frames)[j] == frame_paths(frames2)[j]);
    }
    assert forall|i: int| 0 <= i < frames2.len() implies !done2.contains(
        (#[trigger] frames2[i]).0,
    ) by {
        assert(frames2[i] == frames[i]);
        assert(frame_paths(frames)[i] == frames[i].0);
        assert(!done.contains(frames[i].0));
        if done2.contains(frames2[i].0) {
            let k = choose|k: int| 0 <= k < done2.len() && done2[k] == frames2[i].0;
            if k < done.len() {
                assert(done[k] == frames2[i].0);
                assert(done.contains(frames[i].0));
            } else {
                assert(done2[k] == f.0);
                assert(frame_paths(frames)[i] == frame_paths(frames)[frames.len() - 1]);
            }
        }
    }
    assert forall|i: int|
        0 <= i < frames2.len() implies 0 <= (#[trigger] frames2[i]).1 <= fimports(
        fs,
        frames2[i].0,
    ).len() by {
        assert(frames2[i] == frames[i]);
    }
    assert forall|i: int|
        0 <= i < frames2.len() - 1 implies fimports(fs, (#[trigger] frames2[i]).0).take(
        frames2[i].1,
    ).to_set() <= done2.to_set().insert(frames2[i + 1].0) by {
        assert(frames2[i] == frames[i]);
        assert(frames2[i + 1] == frames[i + 1]);
        assert(done.to_set().insert(frames[i + 1].0) <= done2.to_set().insert(frames2[i + 1].0));
    }
    if frames2.len() > 0 {
        assert(frames2.last() == frames[frames.len() - 2]);
        assert(fimports(fs, frames2.last().0).take(frames2.last().1).to_set() <= done.to_set()
            .insert(frames[frames.len() - 1].0));
        assert(done.to_set().insert(f.0) =~= done2.to_set());
    }
    assert forall|i: int| 1 <= i < frames2.len() implies fimports(fs, frames2[i - 1].0).contains(
        (#[trigger] frames2[i]).0,
    ) by {
        assert(frames2[i] == frames[i]);
        assert(frames2[i - 1] == frames[i - 1]);
    }
    if frames2.len() > 0 {
        assert(frames2[0] == frames[0]);
    }
}


/// `to_set` of a pushed sequence is the inserted set.
proof fn lemma_to_set_push(s: Seq<Seq<u8>>, x: Seq<u8>)
    ensures
        s.push(x).to_set() == s.to_set().insert(x),
{
    let a = s.push(x);
    assert forall|p: Seq<u8>| a.to_set().contains(p) implies s.to_set().insert(x).contains(p) by {
        let k = choose|k: int| 0 <= k < a.len() && a[k] == p;
        if k < s.len() {
            assert(s[k] == p);
        }
    }
    assert forall|p: Seq<u8>| s.to_set().insert(x).contains(p) implies a.to_set().contains(p) by {
        if p == x {
            assert(a[a.len() - 1] == p);
        } else {
            let k = choose|k: int| 0 <= k < s.len() && s[k] == p;
            assert(a[k] == p);
        }
    }
    assert(a.to_set() =~= s.to_set().insert(x));
}

/// Popping the top frame onto the merge order keeps the marked set.
proof fn lemma_marked_pop(done: Seq<Seq<u8>>, frames: Seq<(Seq<u8>, int)>)
    requires
        frames.len() > 0,
    ensures
        marked(done.push(frames.last().0), frames.drop_last()) == marked(done, frames),
{
    let f = frames.last();
    assert(frame_paths(frames.drop_last()) =~= frame_paths(frames).drop_last());
    assert(frame_paths(frames)[frames.len() - 1] == f.0);
    assert forall|p: Seq<u8>| marked(done, frames).contains(p) implies marked(
        done.push(f.0),
        frames.drop_last(),
    ).contains(p) by {
        if frame_paths(frames).to_set().contains(p) {
            let k = choose|k: int|
                0 <= k < frame_paths(frames).len() && frame_paths(frames)[k] == p;
            if k < frames.len() - 1 {
                assert(frame_paths(frames.drop_last())[k] == p);
            } else {
                assert(done.push(f.0).last() == p);
            }
        } else {
            let k = choose|k: int| 0 <= k < done.len() && done[k] == p;
            assert(done.push(f.0)[k] == p);
        }
    }
    assert forall|p: Seq<u8>| marked(done.push(f.0), frames.drop_last()).contains(p) implies marked(
        done,
        frames,
    ).contains(p) by {
        if done.push(f.0).to_set().contains(p) {
            let k = choose|k: int| 0 <= k < done.push(f.0).len() && done.push(f.0)[k] == p;
            if k < done.len() {
                assert(done[k] == p);
            } else {
                assert(frame_paths(frames)[frames.len() - 1] == p);
            }
        } else {
            let k = choose|k: int|
                0 <= k < frame_paths(frames.drop_last()).len() && frame_paths(
                    frames.drop_last(),
                )[k] == p;
            assert(frame_paths(frames)[k] == p);
        }
    }
    assert(marked(done.push(f.0), frames.drop_last()) =~= marked(done, frames));
}

/// Advancing the top frame's import pointer keeps paths and the marked set.
proof fn lemma_marked_update(done: Seq<Seq<u8>>, frames: Seq<(Seq<u8>, int)>, g: (Seq<u8>, int))
    requires
        frames.len() > 0,
        g.0 == frames.last().0,
    ensures
        frame_paths(frames.update(frames.len() - 1, g)) == frame_paths(frames),
        marked(done, frames.update(frames.len() - 1, g)) == marked(done, frames),
{
    assert(frame_paths(frames.update(frames.len() - 1, g)) =~= frame_paths(frames));
    assert(marked(done, frames.update(frames.len() - 1, g)) =~= marked(done, frames));
}

/// Pushing a fresh frame adds exactly its path to the marked set.
proof fn lemma_marked_push(done: Seq<Seq<u8>>, frames: Seq<(Seq<u8>, int)>, t: Seq<u8>)
    ensures
        marked(done, frames.push((t, 0))) == marked(done, frames).insert(t),
{
    let frames3 = frames.push((t, 0));
    assert(frame_paths(frames3) =~= frame_paths(frames).push(t));
    assert forall|p: Seq<u8>| marked(done, frames3).contains(p) implies marked(
        done,
        frames,
    ).insert(t).contains(p) by {
        if frame_paths(frames3).to_set().contains(p) {
            let k = choose|k: int|
                0 <= k < frame_paths(frames3).len() && frame_paths(frames3)[k] == p;
            if k < frames.len() {
                assert(frame_paths(frames)[k] == p);
            }
        }
    }
    assert forall|p: Seq<u8>| marked(done, frames).insert(t).contains(p) implies marked(
        done,
        frames3,
    ).contains(p) by {
        if p == t {
            assert(frame_paths(frames3)[frames3.len() - 1] == t);
        } else if frame_paths(frames).to_set().contains(p) {
            let k = choose|k: int|
                0 <= k < frame_paths(frames).len() && frame_paths(frames)[k] == p;
            assert(frame_paths(frames3)[k] == p);
        }
    }
    assert(marked(done, frames3) =~= marked(done, frames).insert(t));
}

/// Advancing the top pointer past a target that is merged, or about to be
/// pushed, preserves well-formedness.
#[verifier::rlimit(100)]
proof fn lemma_frames_update_ok(
    fs: Map<Seq<u8>, Seq<u8>>,
    done: Seq<Seq<u8>>,
    frames: Seq<(Seq<u8>, int)>,
    root: Seq<u8>,
    t: Seq<u8>,
)
    requires
        frames_ok(fs, done, frames, root),
        frames.len() > 0,
        0 <= frames.last().1 < fimports(fs, frames.last().0).len(),
        t == fimports(fs, frames.last().0)[frames.last().1],
        done.contains(t) || !frame_paths(frames).contains(t),
    ensures
        frames_ok(
            fs,
            done,
            frames.update(frames.len() - 1, (frames.last().0, frames.last().1 + 1)),
            root,
        ) || !done.contains(t),
        done.contains(t) ==> frames_ok(
            fs,
            done,
            frames.update(frames.len() - 1, (frames.last().0, frames.last().1 + 1)),
            root,
        ),
{
    let f = frames.last();
    let imps = fimports(fs, f.0);
    let frames2 = frames.update(frames.len() - 1, (f.0, f.1 + 1));
    lemma_marked_update(done, frames, (f.0, f.1 + 1));
    if done.contains(t) {
        assert(frames_ok(fs, done, frames2, root)) by {
            assert(imps.take(f.1 + 1) =~= imps.take(f.1).push(t));
            assert forall|i: int|
                0 <= i < frames2.len() - 1 implies fimports(fs, (#[trigger] frames2[i]).0).take(
                frames2[i].1,
            ).to_set() <= done.to_set().insert(frames2[i + 1].0) by {
                assert(frames2[i] == frames[i]);
                assert(frames2[i + 1].0 == frames[i + 1].0);
            }
            assert(frames2.last() == (f.0, f.1 + 1));
            assert forall|p: Seq<u8>| imps.take(f.1 + 1).to_set().contains(p) implies
                done.to_set().contains(p) by {
                let k = choose|k: int| 0 <= k < imps.take(f.1 + 1).len() && #[trigger] imps.take(f.1 + 1)[k] == p;
                if k < f.1 {
                    assert(imps.take(f.1)[k] == p);
                }
            }
            assert forall|i: int| 1 <= i < frames2.len() implies fimports(
                fs,
                frames2[i - 1].0,
            ).contains((#[trigger] frames2[i]).0) by {
                assert(frames2[i].0 == frames[i].0);
                assert(frames2[i - 1].0 == frames[i - 1].0);
            }
            assert(frames2[0].0 == frames[0].0);
        }
    }
}

/// Pushing a fresh target file as the new top preserves well-formedness.
#[verifier::rlimit(100)]
proof fn lemma_frames_push_ok(
    fs: Map<Seq<u8>, Seq<u8>>,
    done: Seq<Seq<u8>>,
    frames2: Seq<(Seq<u8>, int)>,
    root: Seq<u8>,
    t: Seq<u8>,
)
    requires
        fs.dom().finite(),
        forall|i: int| 0 <= i < done.len() ==> fs.dom().contains(#[trigger] done[i]),
        done.no_duplicates(),
        forall|i: int|
            0 <= i < done.len() ==> fimports(fs, #[trigger] done[i]).to_set() <= done.take(
                i,
            ).to_set(),
        forall|i: int| 0 <= i < frames2.len() ==> fs.dom().contains((#[trigger] frames2[i]).0),
        frame_paths(frames2).no_duplicates(),
        forall|i: int| 0 <= i < frames2.len() ==> !done.contains((#[trigger] frames2[i]).0),
        forall|i: int|
            0 <= i < frames2.len() ==> 0 <= (#[trigger] frames2[i]).1 <= fimports(
                fs,
                frames2[i].0,
            ).len(),
        forall|i: int|
            0 <= i < frames2.len() - 1 ==> fimports(fs, (#[trigger] frames2[i]).0).take(
                frames2[i].1,
            ).to_set() <= done.to_set().insert(frames2[i + 1].0),
        forall|i: int|
            1 <= i < frames2.len() ==> fimports(fs, frames2[i - 1].0).contains(
                (#[trigger] frames2[i]).0,
            ),
        frames2.len() > 0 ==> frames2[0].0 == root,
        frames2.len() > 0 ==> fimports(fs, frames2.last().0).take(frames2.last().1).to_set()
            <= done.to_set().insert(t),
        frames2.len() > 0 ==> fimports(fs, frames2.last().0).contains(t),
        fs.dom().contains(t),
        !done.contains(t),
        !frame_paths(frames2).contains(t),
        frames2.len() == 0 ==> t == root,
    ensures
        frames_ok(fs, done, frames2.push((t, 0)), root),
{
    let frames3 = frames2.push((t, 0));
    assert(frame_paths(frames3) =~= frame_paths(frames2).push(t));
    assert forall|i: int| 0 <= i < frames3.len() implies fs.dom().contains(
        (#[trigger] frames3[i]).0,
    ) by {
        if i < frames2.len() {
            assert(frames3[i] == frames2[i]);
        }
    }
    assert forall|i: int, j: int|
        0 <= i < frame_paths(frames3).len() && 0 <= j < frame_paths(frames3).len() && i
            != j implies frame_paths(frames3)[i] != frame_paths(frames3)[j] by {
        if i < frames2.len() && j < frames2.len() {
            assert(frame_paths(frames2)[i] == frame_paths(frames3)[i]);
            assert(frame_paths(frames2)[j] == frame_paths(frames3)[j]);
        } else if i < frames2.len() {
            assert(frame_paths(frames2)[i] == frame_paths(frames3)[i]);
            assert(frame_paths(frames3)[j] == t);
        } else if j < frames2.len() {
            assert(frame_paths(frames2)[j] == frame_paths(frames3)[j]);
            assert(frame_paths(frames3)[i] == t);
        }
    }
    assert forall|i: int| 0 <= i < frames3.len() implies !done.contains(
        (#[trigger] frames3[i]).0,
    ) by {
        if i < frames2.len() {
            assert(frames3[i] == frames2[i]);
        }
    }
    assert forall|i: int|
        0 <= i < frames3.len() implies 0 <= (#[trigger] frames3[i]).1 <= fimports(
        fs,
        frames3[i].0,
    ).len() by {
        if i < frames2.len() {
            assert(frames3[i] == frames2[i]);
        } else {
            assert(frames3[i] == (t, 0int));
        }
    }
    assert forall|i: int|
        0 <= i < frames3.len() - 1 implies fimports(fs, (#[trigger] frames3[i]).0).take(
        frames3[i].1,
    ).to_set() <= done.to_set().insert(frames3[i + 1].0) by {
        if i < frames2.len() - 1 {
            assert(frames3[i] == frames2[i]);
            assert(frames3[i + 1].0 == frames2[i + 1].0);
        } else {
            assert(frames3[i] == frames2.last());
            assert(frames3[i + 1].0 == t);
        }
    }
    assert(frames3.last() == (t, 0int));
    assert(fimports(fs, t).take(0) =~= Seq::<Seq<u8>>::empty());
    assert(fimports(fs, frames3.last().0).take(frames3.last().1).to_set() <= done.to_set()) by {
        assert(fimports(fs, t).take(0).to_set() =~= Set::<Seq<u8>>::empty());
    }
    assert forall|i: int| 1 <= i < frames3.len() implies fimports(fs, frames3[i - 1].0).contains(
        (#[trigger] frames3[i]).0,
    ) by {
        if i < frames2.len() {
            assert(frames3[i] == frames2[i]);
            assert(frames3[i - 1] == frames2[i - 1]);
        } else {
            assert(frames3[i].0 == t);
            assert(frames3[i - 1] == frames2.last());
        }
    }
    if frames2.len() > 0 {
        assert(frames3[0].0 == frames2[0].0);
    } else {
        assert(frames3[0].0 == t);
    }
}

} // verus!

verus! {

/// The merged compilation unit: one text, the canonical paths that
/// contributed to it in merge order, and the byte offset at which each
/// file's text begins, for per-file traceability.
#[derive(Debug)]
pub struct MergedUnit {
    pub text: Vec<u8>,
    pub order: Vec<Vec<u8>>,
    pub offsets: Vec<usize>,
}

/// One in-progress file of the walk: its path, its resolved imports, and
/// how many of them have been looked at.
struct EFrame {
    path: Vec<u8>,
    imports: Vec<Vec<u8>>,
    next: usize,
}

/// The mathematical stack a frame vector stands for.
spec fn eframes_view(frames: Seq<EFrame>) -> Seq<(Seq<u8>, int)> {
    frames.map_values(|f: EFrame| (f.path@, f.next as int))
}

/// The invariant the walk's executable state keeps: the abstract state is
/// well formed and every frame carries exactly its file's resolved imports.
spec fn rstate_ok(
    fsm: Map<Seq<u8>, Seq<u8>>,
    done: Vec<Vec<u8>>,
    frames: Vec<EFrame>,
    root: Seq<u8>,
) -> bool {
    &&& frames_ok(fsm, done.deep_view(), eframes_view(frames@), root)
    &&& forall|i: int|
        0 <= i < frames@.len() ==> (#[trigger] frames@[i]).imports.deep_view() == fimports(
            fsm,
            frames@[i].path@,
        )
}

/// Pop the exhausted top frame and append its file to the merge order.
#[verifier::rlimit(100)]
fn resolve_pop(
    fs: &FsModel,
    done: &mut Vec<Vec<u8>>,
    frames: &mut Vec<EFrame>,
    Ghost(root): Ghost<Seq<u8>>,
)
    requires
        fs.wf(),
        fs@.dom().finite(),
        old(frames)@.len() > 0,
        rstate_ok(fs@, *old(done), *old(frames), root),
        old(frames)@.last().next >= old(frames)@.last().imports@.len(),
    ensures
        rstate_ok(fs@, *final(done), *final(frames), root),
        run(fs@, final(done).deep_view(), eframes_view(final(frames)@)) == run(
            fs@,
            old(done).deep_view(),
            eframes_view(old(frames)@),
        ),
        unvisited_count(fs@, final(done).deep_view(), eframes_view(final(frames)@))
            == unvisited_count(fs@, old(done).deep_view(), eframes_view(old(frames)@)),
        pending_count(fs@, eframes_view(final(frames)@)) < pending_count(
            fs@,
            eframes_view(old(frames)@),
        ),
        pending_count(fs@, eframes_view(old(frames)@)) >= 0,
        pending_count(fs@, eframes_view(final(frames)@)) >= 0,
{
    let ghost sdone = done.deep_view();
    let ghost sfr = eframes_view(frames@);
    let li = frames.len() - 1;
    proof {
        assert(frames@.last() == frames@[li as int]);
        assert(sfr.last() == (frames@[li as int].path@, frames@[li as int].next as int));
        assert(frames@[li as int].imports.deep_view() == fimports(fs@, sfr.last().0));
        lemma_pending_nonneg(fs@, sfr.drop_last());
        lemma_pending_nonneg(fs@, sfr);
    }
    let fr = frames.pop().unwrap();
    proof {
        lemma_frames_pop_ok(fs@, sdone, sfr, root);
        lemma_marked_pop(sdone, sfr);
    }
    done.push(fr.path);
    proof {
        assert(eframes_view(frames@) =~~= sfr.drop_last());
        assert(done.deep_view() =~~= sdone.push(fr.path@));
        assert(run(fs@, sdone, sfr) == run(fs@, done.deep_view(), eframes_view(frames@)));
        assert(pending_count(fs@, eframes_view(frames@)) < pending_count(fs@, sfr));
        lemma_pending_nonneg(fs@, eframes_view(frames@));
    }
}

/// Skip the top frame's next import: it is already merged, so only the
/// import pointer moves on.
#[verifier::rlimit(100)]
fn resolve_advance(
    fs: &FsModel,
    done: &Vec<Vec<u8>>,
    frames: &mut Vec<EFrame>,
    t: &Vec<u8>,
    Ghost(root): Ghost<Seq<u8>>,
)
    requires
        fs.wf(),
        fs@.dom().finite(),
        old(frames)@.len() > 0,
        rstate_ok(fs@, *done, *old(frames), root),
        old(frames)@.last().next < old(frames)@.last().imports@.len(),
        t@ == fimports(fs@, old(frames)@.last().path@)[old(frames)@.last().next as int],
        fs@.dom().contains(t@),
        !frame_paths(eframes_view(old(frames)@)).contains(t@),
        done.deep_view().contains(t@),
    ensures
        rstate_ok(fs@, *done, *final(frames), root),
        run(fs@, done.deep_view(), eframes_view(final(frames)@)) == run(
            fs@,
            done.deep_view(),
            eframes_view(old(frames)@),
        ),
        unvisited_count(fs@, done.deep_view(), eframes_view(final(frames)@)) == unvisited_count(
            fs@,
            done.deep_view(),
            eframes_view(old(frames)@),
        ),
        pending_count(fs@, eframes_view(final(frames)@)) < pending_count(
            fs@,
            eframes_view(old(frames)@),
        ),
        pending_count(fs@, eframes_view(old(frames)@)) >= 0,
        pending_count(fs@, eframes_view(final(frames)@)) >= 0,
{
    let ghost sdone = done.deep_view();
    let ghost sfr = eframes_view(frames@);
    let ghost oldfr = frames@;
    let li = frames.len() - 1;
    proof {
        assert(frames@.last() == frames@[li as int]);
        assert(sfr.last() == (frames@[li as int].path@, frames@[li as int].next as int));
        assert(frames@[li as int].imports.deep_view() == fimports(fs@, sfr.last().0));
        lemma_pending_nonneg(fs@, sfr.drop_last());
        lemma_pending_nonneg(fs@, sfr);
        lemma_frames_update_ok(fs@, sdone, sfr, root, t@);
        lemma_marked_update(sdone, sfr, (sfr.last().0, sfr.last().1 + 1));
    }
    let mut fr = frames.pop().unwrap();
    let fr_cap = fr.imports.len();
    proof {
        assert(fr.next < fr_cap);
    }
    fr.next = fr.next + 1;
    let ghost frupd = sfr.update(sfr.len() - 1, (sfr.last().0, sfr.last().1 + 1));
    frames.push(fr);
    proof {
        assert(eframes_view(frames@) =~~= frupd);
        assert(run(fs@, sdone, sfr) == run(fs@, sdone, frupd));
        assert(frames_ok(fs@, sdone, eframes_view(frames@), root));
        assert(unvisited_count(fs@, sdone, eframes_view(frames@)) == unvisited_count(
            fs@,
            sdone,
            sfr,
        ));
        assert(frupd.drop_last() =~= sfr.drop_last());
        assert(pending_count(fs@, frupd) < pending_count(fs@, sfr));
        assert forall|i: int|
            0 <= i < frames@.len() implies (#[trigger] frames@[i]).imports.deep_view()
            == fimports(fs@, frames@[i].path@) by {
            if i < frames@.len() - 1 {
                assert(frames@[i] == oldfr[i]);
            }
        }
        lemma_pending_nonneg(fs@, eframes_view(frames@));
    }
}

/// Push the top frame's next import as a fresh frame of its own, its
/// imports scanned from its text.
#[verifier::rlimit(100)]
fn resolve_push(
    fs: &FsModel,
    done: &Vec<Vec<u8>>,
    frames: &mut Vec<EFrame>,
    t: &Vec<u8>,
    Ghost(root): Ghost<Seq<u8>>,
)
    requires
        fs.wf(),
        fs@.dom().finite(),
        old(frames)@.len() > 0,
        rstate_ok(fs@, *done, *old(frames), root),
        old(frames)@.last().next < old(frames)@.last().imports@.len(),
        t@ == fimports(fs@, old(frames)@.last().path@)[old(frames)@.last().next as int],
        fs@.dom().contains(t@),
        !frame_paths(eframes_view(old(frames)@)).contains(t@),
        !done.deep_view().contains(t@),
    ensures
        rstate_ok(fs@, *done, *final(frames), root),
        run(fs@, done.deep_view(), eframes_view(final(frames)@)) == run(
            fs@,
            done.deep_view(),
            eframes_view(old(frames)@),
        ),
        unvisited_count(fs@, done.deep_view(), eframes_view(final(frames)@)) < unvisited_count(
            fs@,
            done.deep_view(),
            eframes_view(old(frames)@),
        ),
        pending_count(fs@, eframes_view(final(frames)@)) >= 0,
        pending_count(fs@, eframes_view(old(frames)@)) >= 0,
{
    let ghost sdone = done.deep_view();
    let ghost sfr = eframes_view(frames@);
    let ghost oldfr = frames@;
    let li = frames.len() - 1;
    proof {
        assert(frames@.last() == frames@[li as int]);
        assert(sfr.last() == (frames@[li as int].path@, frames@[li as int].next as int));
        assert(frames@[li as int].imports.deep_view() == fimports(fs@, sfr.last().0));
        lemma_pending_nonneg(fs@, sfr.drop_last());
        lemma_pending_nonneg(fs@, sfr);
        lemma_frames_update_ok(fs@, sdone, sfr, root, t@);
        lemma_marked_update(sdone, sfr, (sfr.last().0, sfr.last().1 + 1));
    }
    let ttext = fs.lookup(t).unwrap();
    let timports = file_imports(t, ttext);
    let mut fr = frames.pop().unwrap();
    let fr_cap = fr.imports.len();
    proof {
        assert(fr.next < fr_cap);
    }
    fr.next = fr.next + 1;
    let ghost frupd = sfr.update(sfr.len() - 1, (sfr.last().0, sfr.last().1 + 1));
    frames.push(fr);
    let ghost tv = t@;
    frames.push(EFrame { path: crate::clone_bytes(t), imports: timports, next: 0 });
    proof {
        let frames3 = frupd.push((tv, 0int));
        assert(eframes_view(frames@) =~~= frames3);
        assert(run(fs@, sdone, sfr) == run(fs@, sdone, frames3));
        assert(frupd.last() == (sfr.last().0, sfr.last().1 + 1));
        assert(fimports(fs@, sfr.last().0).take(sfr.last().1 + 1) =~= fimports(
            fs@,
            sfr.last().0,
        ).take(sfr.last().1).push(tv));
        lemma_to_set_push(fimports(fs@, sfr.last().0).take(sfr.last().1), tv);
        assert(frame_paths(frupd) == frame_paths(sfr));
        assert forall|i: int|
            0 <= i < frupd.len() implies fs@.dom().contains((#[trigger] frupd[i]).0) by {
            assert(frame_paths(frupd)[i] == frupd[i].0);
            assert(frame_paths(sfr)[i] == sfr[i].0);
        }
        lemma_frames_push_ok(fs@, sdone, frupd, root, tv);
        assert(frames_ok(fs@, sdone, eframes_view(frames@), root));
        lemma_marked_push(sdone, frupd, tv);
        assert(!marked(sdone, sfr).contains(tv));
        assert(unvisited_count(fs@, sdone, frames3) < unvisited_count(fs@, sdone, sfr)) by {
            assert(fs@.dom().difference(marked(sdone, frames3)) =~= fs@.dom().difference(
                marked(sdone, sfr),
            ).remove(tv));
            assert(fs@.dom().difference(marked(sdone, sfr)).contains(tv));
        }
        assert forall|i: int|
            0 <= i < frames@.len() implies (#[trigger] frames@[i]).imports.deep_view()
            == fimports(fs@, frames@[i].path@) by {
            if i < frames@.len() - 2 {
                assert(frames@[i] == oldfr[i]);
            }
        }
        lemma_pending_nonneg(fs@, eframes_view(frames@));
    }
}

/// Look at the top frame's next import: report it missing, report the
/// cycle it closes, skip it when already merged, or push it as a fresh
/// frame.
#[verifier::rlimit(100)]
fn resolve_expand(
    fs: &FsModel,
    done: &Vec<Vec<u8>>,
    frames: &mut Vec<EFrame>,
    Ghost(root): Ghost<Seq<u8>>,
) -> (r: Option<Diagnostic>)
    requires
        fs.wf(),
        fs@.dom().finite(),
        old(frames)@.len() > 0,
        rstate_ok(fs@, *done, *old(frames), root),
        old(frames)@.last().next < old(frames)@.last().imports@.len(),
    ensures
        match r {
            None => {
                &&& rstate_ok(fs@, *done, *final(frames), root)
                &&& run(fs@, done.deep_view(), eframes_view(final(frames)@)) == run(
                    fs@,
                    done.deep_view(),
                    eframes_view(old(frames)@),
                )
                &&& (unvisited_count(fs@, done.deep_view(), eframes_view(final(frames)@))
                    < unvisited_count(fs@, done.deep_view(), eframes_view(old(frames)@)) || (
                unvisited_count(fs@, done.deep_view(), eframes_view(final(frames)@))
                    == unvisited_count(fs@, done.deep_view(), eframes_view(old(frames)@))
                    && pending_count(fs@, eframes_view(final(frames)@)) < pending_count(
                    fs@,
                    eframes_view(old(frames)@),
                )))
                &&& pending_count(fs@, eframes_view(old(frames)@)) >= 0
                &&& pending_count(fs@, eframes_view(final(frames)@)) >= 0
            },
            Some(e) => match run(fs@, done.deep_view(), eframes_view(old(frames)@)) {
                Resolution::CycleHit { chain } => e@.kind == (SpecDiagKind::CycleFound { chain }),
                Resolution::MissingHit { importer, target } => e@.kind
                    == (SpecDiagKind::MissingFile { importer, target }),
                Resolution::Done { order } => false,
            },
        },
{
    let ghost sdone = done.deep_view();
    let ghost sfr = eframes_view(frames@);
    let li = frames.len() - 1;
    proof {
        assert(frames@.last() == frames@[li as int]);
        assert(sfr.last() == (frames@[li as int].path@, frames@[li as int].next as int));
        assert(frames@[li as int].imports.deep_view() == fimports(fs@, sfr.last().0));
        lemma_pending_nonneg(fs@, sfr.drop_last());
        lemma_pending_nonneg(fs@, sfr);
    }
        let ni = frames[li].next;
        let t = crate::clone_bytes(&frames[li].imports[ni]);
        proof {
            assert(frames@[li as int].imports.deep_view()[ni as int] == t@);
            assert(t@ == fimports(fs@, sfr.last().0)[sfr.last().1]);
        }
        let looked = fs.lookup(&t);
        if looked.is_none() {
            let fr = frames.pop().unwrap();
            proof {
                assert(run(fs@, sdone, sfr) == (Resolution::MissingHit {
                    importer: fr.path@,
                    target: t@,
                }));
            }
            return Some(Diagnostic::MissingFile { importer: fr.path, target: t });
        }
        // is the target already on the in-progress stack?
        let mut k: usize = 0;
        let mut on_stack = false;
        while k < frames.len() && !on_stack
            invariant
                0 <= k <= frames@.len(),
                frames@ == old(frames)@,
                sfr == eframes_view(frames@),
                !on_stack ==> forall|m: int| 0 <= m < k ==> frame_paths(sfr)[m] != t@,
                on_stack ==> k < frames@.len() && frame_paths(sfr)[k as int] == t@ && (forall|
                    m: int,
                | 0 <= m < k ==> frame_paths(sfr)[m] != t@),
            decreases frames@.len() - k + (if on_stack {
                0int
            } else {
                1int
            }),
        {
            if bytes_eq(&frames[k].path, &t) {
                on_stack = true;
                proof {
                    assert(frame_paths(sfr)[k as int] == t@);
                }
            } else {
                proof {
                    assert(frame_paths(sfr)[k as int] == frames@[k as int].path@);
                }
                k += 1;
            }
        }
        if on_stack {
            proof {
                assert(frame_paths(sfr).contains(t@));
                let c = frame_paths(sfr).index_of(t@);
                assert(0 <= c < frame_paths(sfr).len() && frame_paths(sfr)[c] == t@);
                assert(c == k as int);
            }
            let mut chain: Vec<Vec<u8>> = Vec::new();
            let mut m = k;
            while m < frames.len()
                invariant
                    k <= m <= frames@.len(),
                    frames@ == old(frames)@,
                    sfr == eframes_view(frames@),
                    chain.deep_view() =~= frame_paths(sfr).subrange(k as int, m as int),
                decreases frames@.len() - m,
            {
                let ghost pre = chain.deep_view();
                chain.push(crate::clone_bytes(&frames[m].path));
                proof {
                    assert(chain.deep_view() =~~= pre.push(frames@[m as int].path@));
                    assert(frame_paths(sfr)[m as int] == frames@[m as int].path@);
                    assert(chain.deep_view() =~~= frame_paths(sfr).subrange(
                        k as int,
                        m + 1 as int,
                    ));
                }
                m += 1;
            }
            proof {
                assert(chain.deep_view() =~~= frame_paths(sfr).skip(k as int));
                assert(run(fs@, sdone, sfr) == (Resolution::CycleHit {
                    chain: frame_paths(sfr).skip(frame_paths(sfr).index_of(t@)),
                }));
                assert(chain@.map_values(|p: Vec<u8>| p@) =~~= chain.deep_view());
            }
            return Some(Diagnostic::CycleFound { chain });
        }
        let merged_already = crate::contains_bytes(done, &t);
        proof {
            assert(!frame_paths(sfr).contains(t@)) by {
                if frame_paths(sfr).contains(t@) {
                    let c = choose|c: int|
                        0 <= c < frame_paths(sfr).len() && frame_paths(sfr)[c] == t@;
                }
            }
            assert(merged_already <==> sdone.contains(t@)) by {
                assert(done.deep_view() == sdone);
            }
        }
        if merged_already {
            resolve_advance(fs, done, frames, &t, Ghost(root));
        } else {
            resolve_push(fs, done, frames, &t, Ghost(root));
        }
    None
}

/// Resolve the import graph rooted at `root` over the file set `fs`:
/// either the merged unit in deterministic dependency-first order, or the
/// first cycle or missing file the depth-first walk meets.
#[verifier::rlimit(100)]
pub fn resolve(fs: &FsModel, root: &Vec<u8>) -> (r: Result<MergedUnit, Diagnostic>)
    requires
        fs.wf(),
    ensures
        !fs@.dom().contains(root@) ==> (r matches Err(e) && e@.kind == (SpecDiagKind::InputNotFound {
            path: root@,
        })),
        fs@.dom().contains(root@) ==> match spec_resolve(fs@, root@) {
            Resolution::Done { order } => r matches Ok(mu) && mu.order.deep_view() == order
                && mu.text@ == cat_texts(fs@, order) && mu.offsets@.len() == order.len() && (forall|
                i: int,
            |
                0 <= i < order.len() ==> mu.offsets@[i] == cat_texts(fs@, order.take(i)).len()),
            Resolution::CycleHit { chain } => r matches Err(e) && e@.kind
                == (SpecDiagKind::CycleFound { chain }),
            Resolution::MissingHit { importer, target } => r matches Err(e) && e@.kind
                == (SpecDiagKind::MissingFile { importer, target }),
        },
{
    proof {
        crate::fsmodel::lemma_map_of_files_dom(fs.files@);
    }
    let root_text = match fs.lookup(root) {
        None => {
            return Err(Diagnostic::InputNotFound { path: crate::clone_bytes(root) });
        },
        Some(t) => t,
    };
    let rimports = file_imports(root, root_text);
    let mut done: Vec<Vec<u8>> = Vec::new();
    let mut frames: Vec<EFrame> = Vec::new();
    frames.push(EFrame { path: crate::clone_bytes(root), imports: rimports, next: 0 });
    proof {
        assert(eframes_view(frames@) =~~= seq![(root@, 0int)]);
        assert(done.deep_view() =~= Seq::<Seq<u8>>::empty());
        assert(frames_ok(fs@, done.deep_view(), eframes_view(frames@), root@)) by {
            let sfr = eframes_view(frames@);
            assert(frame_paths(sfr) =~= seq![root@]);
            assert(fimports(fs@, root@).take(0) =~= Seq::<Seq<u8>>::empty());
            assert(fimports(fs@, sfr.last().0).take(sfr.last().1).to_set()
                =~= Set::<Seq<u8>>::empty());
        }
        assert(frames@[0].imports.deep_view() == fimports(fs@, frames@[0].path@));
    }
    while frames.len() > 0
        invariant
            fs.wf(),
            fs@.dom().finite(),
            fs@.dom().contains(root@),
            rstate_ok(fs@, done, frames, root@),
            run(fs@, done.deep_view(), eframes_view(frames@)) == spec_resolve(fs@, root@),
        decreases unvisited_count(fs@, done.deep_view(), eframes_view(frames@)), pending_count(
            fs@,
            eframes_view(frames@),
        ),
    {
        let li = frames.len() - 1;
        proof {
            assert(frames@.last() == frames@[li as int]);
            assert(frames@[li as int].imports.deep_view() == fimports(
                fs@,
                frames@[li as int].path@,
            ));
        }
        if frames[li].next >= frames[li].imports.len() {
            resolve_pop(fs, &mut done, &mut frames, Ghost(root@));
        } else {
            match resolve_expand(fs, &done, &mut frames, Ghost(root@)) {
                None => {},
                Some(e) => {
                    return Err(e);
                },
            }
        }
    }
    // the walk is over: concatenate the merged files in order
    let ghost order = done.deep_view();
    proof {
        assert(eframes_view(frames@) =~= Seq::<(Seq<u8>, int)>::empty());
        assert(run(fs@, order, eframes_view(frames@)) == (Resolution::Done { order }));
    }
    let mut text: Vec<u8> = Vec::new();
    let mut offsets: Vec<usize> = Vec::new();
    let mut i: usize = 0;
    proof {
        assert(cat_texts(fs@, order.take(0)) =~= Seq::<u8>::empty()) by {
            assert(order.take(0) =~= Seq::<Seq<u8>>::empty());
        }
    }
    while i < done.len()
        invariant
            fs.wf(),
            0 <= i <= done@.len(),
            order == done.deep_view(),
            order.len() == done@.len(),
            forall|k: int| 0 <= k < order.len() ==> fs@.dom().contains(#[trigger] order[k]),
            text@ == cat_texts(fs@, order.take(i as int)),
            offsets@.len() == i,
            forall|k: int|
                0 <= k < i ==> offsets@[k] == cat_texts(fs@, order.take(k)).len(),
        decreases done@.len() - i,
    {
        offsets.push(text.len());
        let p = &done[i];
        proof {
            assert(order[i as int] == p@);
        }
        let tx = fs.lookup(p).unwrap();
        let mut b: usize = 0;
        while b < tx.len()
            invariant
                0 <= b <= tx@.len(),
                text@ == cat_texts(fs@, order.take(i as int)) + tx@.subrange(0, b as int),
            decreases tx@.len() - b,
        {
            text.push(tx[b]);
            assert(text@ =~= cat_texts(fs@, order.take(i as int)) + tx@.subrange(0, b + 1 as int));
            b += 1;
        }
        proof {
            assert(tx@.subrange(0, tx@.len() as int) =~= tx@);
            assert(cat_texts(fs@, order.take(i + 1)) == cat_texts(fs@, order.take(i as int)) + fs@[
                order[i as int]]) by {
                assert(order.take(i + 1).drop_last() =~= order.take(i as int));
                assert(order.take(i + 1).last() == order[i as int]);
            }
            assert(text@ == cat_texts(fs@, order.take(i + 1)));
        }
        i += 1;
    }
    proof {
        assert(order.take(order.len() as int) =~= order);
    }
    Ok(MergedUnit { text, order: done, offsets })
}

} // verus!
