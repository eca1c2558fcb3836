//! Textual path canonicalization. Paths are byte strings with `/` between
//! segments; canonicalization drops empty and `.` segments and lets `..`
//! consume the segment before it, so two spellings of the same file meet in
//! one canonical form. An import target is resolved against the directory of
//! the importing file unless it starts with `/`.

use vstd::prelude::*;

verus! {

/// The first index at or after `i` holding `/`, or the length.
pub open spec fn seg_end(s: Seq<u8>, i: int) -> int
    decreases s.len() - i,
        when 0 <= i
{
    if i >= s.len() {
        s.len() as int
    } else if s[i] == 47 {
        i
    } else {
        seg_end(s, i + 1)
    }
}

pub proof fn lemma_seg_end(s: Seq<u8>, i: int)
    requires
        0 <= i <= s.len(),
    ensures
        i <= seg_end(s, i) <= s.len(),
        seg_end(s, i) < s.len() ==> s[seg_end(s, i)] == 47,
        forall|k: int| i <= k < seg_end(s, i) ==> s[k] != 47,
    decreases s.len() - i,
{
    if i < s.len() && s[i] != 47 {
        lemma_seg_end(s, i + 1);
    }
}

/// The segments of `s`, split on `/`.
pub open spec fn split_from(s: Seq<u8>, i: int) -> Seq<Seq<u8>>
    decreases s.len() - i,
        when 0 <= i
        via split_from_dec
{
    if i >= s.len() {
        seq![]
    } else {
        let j = seg_end(s, i);
        if j >= s.len() {
            seq![s.subrange(i, s.len() as int)]
        } else {
            seq![s.subrange(i, j)] + split_from(s, j + 1)
        }
    }
}

#[via_fn]
proof fn split_from_dec(s: Seq<u8>, i: int) {
    if 0 <= i < s.len() {
        lemma_seg_end(s, i);
    }
}

pub open spec fn split_path(s: Seq<u8>) -> Seq<Seq<u8>> {
    split_from(s, 0)
}

/// One canonicalization step: fold `seg` into the stack of kept segments.
pub open spec fn norm_push(acc: Seq<Seq<u8>>, seg: Seq<u8>) -> Seq<Seq<u8>> {
    if seg.len() == 0 || seg == seq![46u8] {
        acc
    } else if seg == seq![46u8, 46u8] {
        if acc.len() > 0 {
            acc.drop_last()
        } else {
            acc
        }
    } else {
        acc.push(seg)
    }
}

/// Fold every segment from `i` on into `acc`.
pub open spec fn norm_from(segs: Seq<Seq<u8>>, i: int, acc: Seq<Seq<u8>>) -> Seq<Seq<u8>>
    decreases segs.len() - i,
        when 0 <= i
{
    if i >= segs.len() {
        acc
    } else {
        norm_from(segs, i + 1, norm_push(acc, segs[i]))
    }
}

/// `/`-joined form of the segments from `i` on, one leading `/` per segment.
pub open spec fn join_from(segs: Seq<Seq<u8>>, i: int) -> Seq<u8>
    decreases segs.len() - i,
        when 0 <= i
{
    if i >= segs.len() {
        seq![]
    } else {
        seq![47u8] + segs[i] + join_from(segs, i + 1)
    }
}

/// The canonical form of a path.
pub open spec fn canon_path(s: Seq<u8>) -> Seq<u8> {
    join_from(norm_from(split_path(s), 0, seq![]), 0)
}

/// The segments of the directory holding the file at `p`.
pub open spec fn parent_segs(p: Seq<u8>) -> Seq<Seq<u8>> {
    if split_path(p).len() > 0 {
        split_path(p).drop_last()
    } else {
        seq![]
    }
}

/// The canonical path an import target denotes, resolved against the
/// importing file: targets starting with `/` stand alone, all others are
/// relative to the importer's directory.
pub open spec fn resolve_import(importer: Seq<u8>, target: Seq<u8>) -> Seq<u8> {
    if target.len() > 0 && target[0] == 47 {
        canon_path(target)
    } else {
        join_from(norm_from(parent_segs(importer) + split_path(target), 0, seq![]), 0)
    }
}

/// First index at or after `i` holding `/`, or the length.
fn find_seg_end(text: &Vec<u8>, i: usize) -> (r: usize)
    requires
        i <= text@.len(),
    ensures
        r == seg_end(text@, i as int),
        i <= r <= text@.len(),
{
    let mut j: usize = i;
    while j < text.len() && text[j] != 47
        invariant
            i <= j <= text@.len(),
            seg_end(text@, i as int) == seg_end(text@, j as int),
        decreases text@.len() - j,
    {
        j += 1;
    }
    proof {
        lemma_seg_end(text@, j as int);
    }
    j
}

/// The bytes of `v` from `i` up to `j`.
pub fn copy_range(v: &Vec<u8>, i: usize, j: usize) -> (r: Vec<u8>)
    requires
        i <= j <= v@.len(),
    ensures
        r@ == v@.subrange(i as int, j as int),
{
    let mut out: Vec<u8> = Vec::new();
    let mut k: usize = i;
    while k < j
        invariant
            i <= k <= j <= v@.len(),
            out@ == v@.subrange(i as int, k as int),
        decreases j - k,
    {
        out.push(v[k]);
        assert(out@ =~= v@.subrange(i as int, k + 1 as int));
        k += 1;
    }
    out
}

/// Split a path into its segments.
fn split_segments(text: &Vec<u8>) -> (r: Vec<Vec<u8>>)
    ensures
        r.deep_view() == split_path(text@),
{
    let mut out: Vec<Vec<u8>> = Vec::new();
    let mut i: usize = 0;
    while i < text.len()
        invariant
            0 <= i <= text@.len(),
            split_path(text@) == out.deep_view() + split_from(text@, i as int),
        decreases text@.len() - i,
    {
        let j = find_seg_end(text, i);
        let seg = copy_range(text, i, j);
        let ghost pre = out.deep_view();
        out.push(seg);
        proof {
            assert(out.deep_view() =~~= pre.push(seg@));
            if j < text.len() {
                assert(split_from(text@, i as int) == seq![seg@] + split_from(text@, j + 1));
            } else {
                assert(split_from(text@, i as int) == seq![seg@]);
                assert(split_from(text@, text@.len() as int) =~= Seq::<Seq<u8>>::empty());
            }
        }
        if j < text.len() {
            proof {
                assert(split_path(text@) =~~= out.deep_view() + split_from(text@, j + 1));
            }
            i = j + 1;
        } else {
            proof {
                assert(split_path(text@) =~~= out.deep_view() + split_from(
                    text@,
                    text@.len() as int,
                ));
            }
            i = text.len();
        }
    }
    proof {
        assert(split_from(text@, i as int) =~= Seq::<Seq<u8>>::empty());
        assert(split_path(text@) =~~= out.deep_view());
    }
    out
}

/// Fold the segments down to their canonical stack.
fn normalize_segments(segs: Vec<Vec<u8>>) -> (r: Vec<Vec<u8>>)
    ensures
        r.deep_view() == norm_from(segs.deep_view(), 0, seq![]),
{
    let ghost dv = segs.deep_view();
    let mut acc: Vec<Vec<u8>> = Vec::new();
    let mut i: usize = 0;
    proof {
        assert(acc.deep_view() =~= Seq::<Seq<u8>>::empty());
    }
    while i < segs.len()
        invariant
            0 <= i <= dv.len(),
            dv == segs.deep_view(),
            dv.len() == segs@.len(),
            norm_from(dv, 0, seq![]) == norm_from(dv, i as int, acc.deep_view()),
        decreases dv.len() - i,
    {
        let seg = &segs[i];
        let ghost pre = acc.deep_view();
        proof {
            assert(dv[i as int] =~= seg@);
        }
        let is_empty = seg.len() == 0;
        let is_dot = seg.len() == 1 && seg[0] == 46;
        let is_dotdot = seg.len() == 2 && seg[0] == 46 && seg[1] == 46;
        if is_empty || is_dot {
            proof {
                if is_dot {
                    assert(seg@ =~= seq![46u8]);
                }
                assert(norm_push(pre, dv[i as int]) == pre);
            }
        } else if is_dotdot {
            proof {
                assert(seg@ =~= seq![46u8, 46u8]);
            }
            if acc.len() > 0 {
                acc.pop();
                proof {
                    assert(acc.deep_view() =~~= pre.drop_last());
                }
            }
            proof {
                assert(acc.deep_view() == norm_push(pre, dv[i as int]));
            }
        } else {
            proof {
                assert(seg@ != seq![46u8]);
                assert(seg@ != seq![46u8, 46u8]);
            }
            acc.push(seg.clone());
            proof {
                assert(acc.deep_view() =~~= pre.push(dv[i as int]));
            }
        }
        i += 1;
    }
    acc
}

/// Join segments back into one path.
fn join_segments(segs: &Vec<Vec<u8>>) -> (r: Vec<u8>)
    ensures
        r@ == join_from(segs.deep_view(), 0),
{
    let ghost dv = segs.deep_view();
    let mut out: Vec<u8> = Vec::new();
    let mut i: usize = 0;
    while i < segs.len()
        invariant
            0 <= i <= dv.len(),
            dv == segs.deep_view(),
            dv.len() == segs@.len(),
            join_from(dv, 0) == out@ + join_from(dv, i as int),
        decreases dv.len() - i,
    {
        let ghost pre = out@;
        out.push(47);
        let seg = &segs[i];
        proof {
            assert(dv[i as int] =~= seg@);
        }
        let mut k: usize = 0;
        while k < seg.len()
            invariant
                0 <= k <= seg@.len(),
                out@ == pre + seq![47u8] + seg@.subrange(0, k as int),
            decreases seg@.len() - k,
        {
            out.push(seg[k]);
            assert(out@ =~= pre + seq![47u8] + seg@.subrange(0, k + 1 as int));
            k += 1;
        }
        proof {
            assert(seg@.subrange(0, seg@.len() as int) =~= seg@);
            assert(join_from(dv, i as int) == seq![47u8] + dv[i as int] + join_from(dv, i + 1));
            assert(join_from(dv, 0) =~= out@ + join_from(dv, i + 1));
        }
        i += 1;
    }
    proof {
        assert(join_from(dv, i as int) =~= Seq::<u8>::empty());
        assert(join_from(dv, 0) =~= out@);
    }
    out
}

/// The canonical form of `p`.
pub fn canonical_path(p: &Vec<u8>) -> (r: Vec<u8>)
    ensures
        r@ == canon_path(p@),
{
    let segs = split_segments(p);
    let normed = normalize_segments(segs);
    join_segments(&normed)
}

/// The canonical path that `target`, written in the file at canonical path
/// `importer`, denotes.
pub fn import_path(importer: &Vec<u8>, target: &Vec<u8>) -> (r: Vec<u8>)
    ensures
        r@ == resolve_import(importer@, target@),
{
    if target.len() > 0 && target[0] == 47 {
        canonical_path(target)
    } else {
        let mut segs = split_segments(importer);
        if segs.len() > 0 {
            let ghost pre = segs.deep_view();
            segs.pop();
            proof {
                assert(segs.deep_view() =~~= pre.drop_last());
            }
        }
        proof {
            assert(segs.deep_view() =~~= parent_segs(importer@));
        }
        let tail = split_segments(target);
        let ghost whole = parent_segs(importer@) + split_path(target@);
        let mut j: usize = 0;
        while j < tail.len()
            invariant
                0 <= j <= tail@.len(),
                tail.deep_view() == split_path(target@),
                segs.deep_view() == parent_segs(importer@) + split_path(target@).subrange(
                    0,
                    j as int,
                ),
            decreases tail@.len() - j,
        {
            let ghost pre = segs.deep_view();
            segs.push(tail[j].clone());
            proof {
                assert(segs.deep_view() =~~= pre.push(tail.deep_view()[j as int]));
                assert(segs.deep_view() =~~= parent_segs(importer@) + split_path(
                    target@,
                ).subrange(0, j + 1 as int));
            }
            j += 1;
        }
        proof {
            assert(split_path(target@).subrange(0, split_path(target@).len() as int) =~= split_path(
                target@,
            ));
            assert(segs.deep_view() =~~= whole);
        }
        let normed = normalize_segments(segs);
        join_segments(&normed)
    }
}

} // verus!
