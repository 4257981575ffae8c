//! Lexical normalisation of file paths: `.` segments and empty segments are
//! dropped and each `name/..` pair is folded away, so that two spellings of
//! one path compare equal.

use vstd::prelude::*;

verus! {

pub open spec fn is_slash(b: u8) -> bool {
    b == 47u8
}

/// The segments of `p` from offset `i` on, as half-open ranges: maximal runs
/// of bytes other than `/`; `start` is the start of a segment already begun.
pub open spec fn segments_from(p: Seq<u8>, i: int, start: Option<int>) -> Seq<(int, int)>
    decreases p.len() - i,
{
    if i >= p.len() {
        match start {
            Some(s) => seq![(s, p.len() as int)],
            None => seq![],
        }
    } else if is_slash(p[i]) {
        match start {
            Some(s) => seq![(s, i)] + segments_from(p, i + 1, None),
            None => segments_from(p, i + 1, None),
        }
    } else {
        segments_from(p, i + 1, if start is None { Some(i) } else { start })
    }
}

pub open spec fn segment_texts(p: Seq<u8>, ws: Seq<(int, int)>) -> Seq<Seq<u8>> {
    ws.map_values(|w: (int, int)| p.subrange(w.0, w.1))
}

/// The non-empty segments of `p`, in order.
pub open spec fn segments(p: Seq<u8>) -> Seq<Seq<u8>> {
    segment_texts(p, segments_from(p, 0, None))
}

/// One segment applied to the segments kept so far.
pub open spec fn fold_segment(kept: Seq<Seq<u8>>, seg: Seq<u8>, absolute: bool) -> Seq<Seq<u8>> {
    if seg == seq![46u8] {
        kept
    } else if seg == seq![46u8, 46u8] {
        if kept.len() > 0 && kept.last() != seq![46u8, 46u8] {
            kept.drop_last()
        } else if absolute {
            kept
        } else {
            kept.push(seg)
        }
    } else {
        kept.push(seg)
    }
}

/// The segments kept after the first `n` of `segs`.
pub open spec fn fold_segments(segs: Seq<Seq<u8>>, n: nat, absolute: bool) -> Seq<Seq<u8>>
    decreases n,
{
    if n == 0 || n > segs.len() {
        seq![]
    } else {
        fold_segment(fold_segments(segs, (n - 1) as nat, absolute), segs[n - 1], absolute)
    }
}

/// The segments `xs` joined by `/`.
pub open spec fn join_segments(xs: Seq<Seq<u8>>) -> Seq<u8>
    decreases xs.len(),
{
    if xs.len() == 0 {
        seq![]
    } else if xs.len() == 1 {
        xs[0]
    } else {
        join_segments(xs.drop_last()) + seq![47u8] + xs.last()
    }
}

pub open spec fn is_absolute(p: Seq<u8>) -> bool {
    p.len() > 0 && is_slash(p[0])
}

/// `p` in normal form: a leading `/` kept, then the segments that remain
/// once `.` is dropped and each `name/..` is folded, joined by `/`.
pub open spec fn normalize_spec(p: Seq<u8>) -> Seq<u8> {
    let segs = segments(p);
    let kept = join_segments(fold_segments(segs, segs.len(), is_absolute(p)));
    if is_absolute(p) { seq![47u8] + kept } else { kept }
}

pub open spec fn vecs_view(v: Seq<Vec<u8>>) -> Seq<Seq<u8>> {
    v.map_values(|x: Vec<u8>| x@)
}

proof fn lemma_segments_from_bounds(p: Seq<u8>, i: int, start: Option<int>)
    requires
        0 <= i,
        start matches Some(s) ==> 0 <= s < i && i <= p.len(),
    ensures
        forall|k: int| 0 <= k < segments_from(p, i, start).len() ==>
            0 <= (#[trigger] segments_from(p, i, start)[k]).0 < segments_from(p, i, start)[k].1 <= p.len(),
    decreases p.len() - i,
{
    if i >= p.len() {
        if let Some(s) = start {
            assert(segments_from(p, i, start) == seq![(s, p.len() as int)]);
        } else {
            assert(segments_from(p, i, start) == Seq::<(int, int)>::empty());
        }
    } else if is_slash(p[i]) {
        lemma_segments_from_bounds(p, i + 1, None);
        if let Some(s) = start {
            let rest = segments_from(p, i + 1, None);
            assert forall|k: int| 0 <= k < segments_from(p, i, start).len() implies
                0 <= (#[trigger] segments_from(p, i, start)[k]).0 < segments_from(p, i, start)[k].1 <= p.len() by {
                if k > 0 {
                    assert(segments_from(p, i, start)[k] == rest[k - 1]);
                }
            }
        } else {
            assert(segments_from(p, i, start) == segments_from(p, i + 1, None));
        }
    } else {
        let st2 = if start is None { Some(i) } else { start };
        lemma_segments_from_bounds(p, i + 1, st2);
        assert(segments_from(p, i, start) == segments_from(p, i + 1, st2));
    }
}

fn copy_bytes(p: &[u8], s: usize, e: usize) -> (r: Vec<u8>)
    requires
        s <= e <= p@.len(),
    ensures
        r@ == p@.subrange(s as int, e as int),
{
    let mut r: Vec<u8> = Vec::new();
    let mut i: usize = s;
    while i < e
        invariant
            s <= i <= e <= p@.len(),
            r@ == p@.subrange(s as int, i as int),
        decreases e - i,
    {
        r.push(p[i]);
        assert(r@ =~= p@.subrange(s as int, i + 1));
        i = i + 1;
    }
    r
}

/// Splits `p` into its non-empty segments.
fn split_segments(p: &[u8]) -> (r: Vec<Vec<u8>>)
    ensures
        vecs_view(r@) == segments(p@),
{
    let mut r: Vec<Vec<u8>> = Vec::new();
    let mut start: Option<usize> = None;
    let mut i: usize = 0;
    let ghost all = segments_from(p@, 0, None);
    let ghost mut done: Seq<(int, int)> = seq![];
    proof { lemma_segments_from_bounds(p@, 0, None); }
    assert(vecs_view(r@) =~= segment_texts(p@, done));
    while i < p.len()
        invariant
            i <= p@.len(),
            start matches Some(s) ==> s < i,
            all == segments_from(p@, 0, None),
            all == done + segments_from(p@, i as int, match start { Some(s) => Some(s as int), None => None }),
            vecs_view(r@) == segment_texts(p@, done),
        decreases p.len() - i,
    {
        if p[i] == 47 {
            if let Some(s) = start {
                let seg = copy_bytes(p, s, i);
                let ghost old_r = vecs_view(r@);
                r.push(seg);
                proof {
                    assert(vecs_view(r@) =~= old_r.push(p@.subrange(s as int, i as int)));
                    assert(segment_texts(p@, done.push((s as int, i as int))) =~= segment_texts(p@, done).push(p@.subrange(s as int, i as int)));
                    assert(done + segments_from(p@, i as int, Some(s as int)) =~= done.push((s as int, i as int)) + segments_from(p@, i + 1, None));
                    done = done.push((s as int, i as int));
                }
            }
            start = None;
        } else if start.is_none() {
            start = Some(i);
        }
        i = i + 1;
    }
    if let Some(s) = start {
        let seg = copy_bytes(p, s, p.len());
        let ghost old_r = vecs_view(r@);
        r.push(seg);
        proof {
            assert(vecs_view(r@) =~= old_r.push(p@.subrange(s as int, p@.len() as int)));
            assert(segment_texts(p@, done.push((s as int, p@.len() as int))) =~= segment_texts(p@, done).push(p@.subrange(s as int, p@.len() as int)));
            assert(all =~= done.push((s as int, p@.len() as int)));
        }
    } else {
        assert(all =~= done);
    }
    r
}

fn is_dot(v: &Vec<u8>) -> (r: bool)
    ensures
        r == (v@ == seq![46u8]),
{
    let r = v.len() == 1 && v[0] == 46;
    if r { assert(v@ =~= seq![46u8]); }
    r
}

fn is_dot_dot(v: &Vec<u8>) -> (r: bool)
    ensures
        r == (v@ == seq![46u8, 46u8]),
{
    let r = v.len() == 2 && v[0] == 46 && v[1] == 46;
    if r { assert(v@ =~= seq![46u8, 46u8]); }
    proof { if v@ == seq![46u8, 46u8] { assert(v@[0] == 46 && v@[1] == 46); } }
    r
}

/// Brings `p` into normal form.
pub fn normalize(p: &[u8]) -> (r: Vec<u8>)
    ensures
        r@ == normalize_spec(p@),
{
    let absolute = p.len() > 0 && p[0] == 47;
    let segs = split_segments(p);
    let ghost gs = segments(p@);
    let mut kept: Vec<Vec<u8>> = Vec::new();
    let mut n: usize = 0;
    assert(vecs_view(kept@) =~= fold_segments(gs, 0, absolute));
    while n < segs.len()
        invariant
            n <= segs@.len(),
            vecs_view(segs@) == gs,
            vecs_view(kept@) == fold_segments(gs, n as nat, absolute),
        decreases segs.len() - n,
    {
        let seg = &segs[n];
        assert(gs[n as int] == seg@);
        let ghost before = vecs_view(kept@);
        if is_dot(seg) {
        } else if is_dot_dot(seg) {
            let drop = kept.len() > 0 && !is_dot_dot(&kept[kept.len() - 1]);
            if kept.len() > 0 {
                assert(before.last() == kept@[kept@.len() - 1]@);
            }
            if drop {
                kept.pop();
                assert(vecs_view(kept@) =~= before.drop_last());
            } else if !absolute {
                kept.push(copy_bytes(seg.as_slice(), 0, seg.len()));
                assert(seg@.subrange(0, seg@.len() as int) =~= seg@);
                assert(vecs_view(kept@) =~= before.push(seg@));
            }
        } else {
            kept.push(copy_bytes(seg.as_slice(), 0, seg.len()));
            assert(seg@.subrange(0, seg@.len() as int) =~= seg@);
            assert(vecs_view(kept@) =~= before.push(seg@));
        }
        n = n + 1;
    }
    let ghost ks = vecs_view(kept@);
    let mut r: Vec<u8> = Vec::new();
    if absolute {
        r.push(47);
    }
    let ghost prefix = r@;
    let mut k: usize = 0;
    assert(ks.take(0) =~= Seq::<Seq<u8>>::empty());
    assert(prefix + join_segments(Seq::<Seq<u8>>::empty()) =~= prefix);
    while k < kept.len()
        invariant
            k <= kept@.len(),
            ks == vecs_view(kept@),
            r@ == prefix + join_segments(ks.take(k as int)),
        decreases kept.len() - k,
    {
        let ghost before = r@;
        assert(ks.take(k + 1).drop_last() =~= ks.take(k as int));
        assert(ks.take(k + 1).last() == kept@[k as int]@);
        if k > 0 {
            r.push(47);
        }
        let seg = &kept[k];
        let mut j: usize = 0;
        let ghost mid = r@;
        while j < seg.len()
            invariant
                j <= seg@.len(),
                r@ == mid + seg@.subrange(0, j as int),
            decreases seg.len() - j,
        {
            r.push(seg[j]);
            assert(r@ =~= mid + seg@.subrange(0, j + 1));
            j = j + 1;
        }
        assert(seg@.subrange(0, seg@.len() as int) =~= seg@);
        if k == 0 {
            assert(ks.take(1) =~= seq![seg@]);
            assert(r@ =~= prefix + seg@);
        } else {
            assert(r@ =~= prefix + (join_segments(ks.take(k as int)) + seq![47u8] + seg@));
        }
        k = k + 1;
    }
    assert(ks.take(kept@.len() as int) =~= ks);
    assert(!absolute ==> r@ =~= join_segments(ks));
    r
}

} // verus!
