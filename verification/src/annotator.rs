//! Re-emission of the scanned text with annotation lines inserted.
//!
//! The original text is reproduced verbatim; after the line carrying a
//! resolved reference, a synthesized line is inserted: as many spaces as the
//! reference's column offset in its line, the indicator token, one space,
//! then `path:line:column` of the resolved location.

use vstd::prelude::*;

use crate::extractor::ExtractResult;
use crate::resolver::ResolveResult;

verus! {

// ---------------------------------------------------------------------------
// Decimal rendering
// ---------------------------------------------------------------------------

/// The decimal digits of `n`, most significant first.
pub open spec fn dec_str(n: nat) -> Seq<u8>
    decreases n,
{
    if n < 10 {
        seq![(n + 48) as u8]
    } else {
        dec_str(n / 10).push((n % 10 + 48) as u8)
    }
}

pub fn u32_to_dec(n: u32) -> (v: Vec<u8>)
    ensures
        v@ == dec_str(n as nat),
    decreases n,
{
    if n < 10 {
        let mut v: Vec<u8> = Vec::new();
        v.push((n as u8) + 48);
        proof {
            assert(v@ =~= dec_str(n as nat));
        }
        v
    } else {
        let mut v = u32_to_dec(n / 10);
        v.push(((n % 10) as u8) + 48);
        v
    }
}

// ---------------------------------------------------------------------------
// The annotation line
// ---------------------------------------------------------------------------

pub open spec fn spaces(n: int) -> Seq<u8> {
    Seq::new(n as nat, |i: int| 32u8)
}

fn exec_spaces(n: usize) -> (v: Vec<u8>)
    ensures
        v@ == spaces(n as int),
{
    let mut v: Vec<u8> = Vec::new();
    let mut k: usize = 0;
    while k < n
        invariant
            k <= n,
            v@ == spaces(k as int),
        decreases n - k,
    {
        v.push(32);
        proof {
            assert(spaces(k as int).push(32u8) =~= spaces(k + 1));
        }
        k = k + 1;
    }
    v
}

/// The inserted line (without its separator): spaces up to the reference's
/// column, the indicator, a space, then `path:line:column`.
pub open spec fn ann_of(col: int, ind: Seq<u8>, path: Seq<u8>, line: u32, colr: u32) -> Seq<u8> {
    spaces(col) + ind + seq![32u8] + path + seq![58u8] + dec_str(line as nat) + seq![58u8]
        + dec_str(colr as nat)
}

fn build_ann(col: usize, ind: &Vec<u8>, path: &Vec<u8>, line: u32, colr: u32) -> (v: Vec<u8>)
    ensures
        v@ == ann_of(col as int, ind@, path@, line, colr),
{
    let mut v = exec_spaces(col);
    let mut part = crate::scan::copy_range(ind, 0, ind.len());
    v.append(&mut part);
    v.push(32);
    let mut part = crate::scan::copy_range(path, 0, path.len());
    v.append(&mut part);
    v.push(58);
    let mut part = u32_to_dec(line);
    v.append(&mut part);
    v.push(58);
    let mut part = u32_to_dec(colr);
    v.append(&mut part);
    proof {
        assert(ind@.subrange(0, ind@.len() as int) =~= ind@);
        assert(path@.subrange(0, path@.len() as int) =~= path@);
        assert(v@ =~= ann_of(col as int, ind@, path@, line, colr));
    }
    v
}

/// Alignment: the inserted line starts with exactly as many spaces as the
/// reference's 0-indexed column offset in its line — provided the indicator
/// does not itself start with a space.
pub proof fn lemma_alignment(col: int, ind: Seq<u8>, path: Seq<u8>, line: u32, colr: u32)
    requires
        col >= 0,
        ind.len() > 0,
        ind[0] != 32,
    ensures
        ann_of(col, ind, path, line, colr).len() > col,
        forall|i: int| 0 <= i < col ==> ann_of(col, ind, path, line, colr)[i] == 32,
        ann_of(col, ind, path, line, colr)[col] != 32,
{
    let a = ann_of(col, ind, path, line, colr);
    assert(a[col] == ind[0]);
    assert forall|i: int| 0 <= i < col implies a[i] == 32 by {
        assert(a[i] == spaces(col)[i]);
    }
}

// ---------------------------------------------------------------------------
// The per-line writer
// ---------------------------------------------------------------------------

/// What one emitted chunk holds: the line, its separator, and — when the
/// line carries an extracted reference that was resolved — the annotation
/// line with its separator.
pub open spec fn write_spec(
    text: Seq<u8>,
    ex: Option<ExtractResult>,
    res: Option<ResolveResult>,
    ind: Seq<u8>,
) -> Seq<u8> {
    match (ex, res) {
        (Some(e), Some(r)) => text + seq![10u8] + ann_of(
            e.start as int,
            ind,
            r.path@,
            r.line,
            r.column,
        ) + seq![10u8],
        _ => text + seq![10u8],
    }
}

/// Emit one scanned line: the line itself, then — if a reference was
/// extracted from it and resolved — the aligned annotation line.
pub fn write(
    text: &Vec<u8>,
    extract: &Option<ExtractResult>,
    resolved: &Option<ResolveResult>,
    indicator: &Vec<u8>,
) -> (out: Vec<u8>)
    ensures
        out@ == write_spec(text@, *extract, *resolved, indicator@),
{
    let mut out = crate::scan::copy_range(text, 0, text.len());
    out.push(10);
    proof {
        assert(text@.subrange(0, text@.len() as int) =~= text@);
        assert(out@ =~= text@ + seq![10u8]);
    }
    match (extract, resolved) {
        (Some(e), Some(r)) => {
            let mut ann = build_ann(e.start, indicator, &r.path, r.line, r.column);
            out.append(&mut ann);
            out.push(10);
            proof {
                assert(out@ =~= write_spec(text@, *extract, *resolved, indicator@));
            }
        },
        _ => {},
    }
    out
}

// ---------------------------------------------------------------------------
// The whole-text merge
// ---------------------------------------------------------------------------

/// A resolved reference waiting to be merged: the index of the line carrying
/// it, the column offset of the reference in that line, and the resolved
/// location.
pub struct PendingAnnotation {
    pub line_index: usize,
    pub col: usize,
    pub loc: ResolveResult,
}

pub open spec fn pending_ann(a: PendingAnnotation, ind: Seq<u8>) -> Seq<u8> {
    ann_of(a.col as int, ind, a.loc.path@, a.loc.line, a.loc.column)
}

/// The annotation lines consumed for line `li`, starting at entry `k`.
pub open spec fn flush_out(anns: Seq<PendingAnnotation>, k: int, li: int, ind: Seq<u8>) -> Seq<u8>
    decreases anns.len() - k,
{
    if 0 <= k < anns.len() && anns[k].line_index == li {
        pending_ann(anns[k], ind) + seq![10u8] + flush_out(anns, k + 1, li, ind)
    } else {
        Seq::empty()
    }
}

/// The first entry not consumed for line `li`, starting at entry `k`.
pub open spec fn next_k(anns: Seq<PendingAnnotation>, k: int, li: int) -> int
    decreases anns.len() - k,
{
    if 0 <= k < anns.len() && anns[k].line_index == li {
        next_k(anns, k + 1, li)
    } else {
        k
    }
}

/// The merged output from text offset `pos` on, with `li` the index of the
/// line `pos` lies in and `k` the next annotation entry. Entries are
/// consumed in order; after the line holding entry `k`'s index has passed,
/// a later entry for an earlier line is never emitted. When the final line
/// has no separator of its own and annotations follow it, a separator is
/// inserted before them.
pub open spec fn merge_from(
    t: Seq<u8>,
    pos: int,
    li: int,
    anns: Seq<PendingAnnotation>,
    k: int,
    ind: Seq<u8>,
) -> Seq<u8>
    decreases t.len() - pos,
{
    if !(0 <= pos < t.len()) {
        let f = flush_out(anns, k, li, ind);
        if f.len() == 0 {
            Seq::empty()
        } else if t.len() > 0 && t[t.len() - 1] != 10 {
            seq![10u8] + f
        } else {
            f
        }
    } else if t[pos] == 10 {
        seq![10u8] + flush_out(anns, k, li, ind) + merge_from(
            t,
            pos + 1,
            li + 1,
            anns,
            next_k(anns, k, li),
            ind,
        )
    } else {
        seq![t[pos]] + merge_from(t, pos + 1, li, anns, k, ind)
    }
}

/// Merge the scanned text with its resolved references in one pass over the
/// line boundaries: the text is reproduced verbatim, and after each line the
/// annotation lines of the entries naming that line are inserted, in entry
/// order.
pub fn annotate(text: &Vec<u8>, anns: &Vec<PendingAnnotation>, indicator: &Vec<u8>) -> (out: Vec<
    u8,
>)
    ensures
        out@ == merge_from(text@, 0, 0, anns@, 0, indicator@),
{
    let ghost total = merge_from(text@, 0, 0, anns@, 0, indicator@);
    let mut out: Vec<u8> = Vec::new();
    let mut pos: usize = 0;
    let mut li: usize = 0;
    let mut k: usize = 0;
    while pos < text.len()
        invariant
            pos <= text.len(),
            li <= pos,
            k <= anns.len(),
            total == out@ + merge_from(text@, pos as int, li as int, anns@, k as int, indicator@),
        decreases text.len() - pos,
    {
        let b = text[pos];
        out.push(b);
        pos = pos + 1;
        if b == 10 {
            let ghost k0 = k as int;
            while k < anns.len() && anns[k].line_index == li
                invariant
                    k0 <= k <= anns.len(),
                    pos <= text.len(),
                    next_k(anns@, k0, li as int) == next_k(anns@, k as int, li as int),
                    total == out@ + flush_out(anns@, k as int, li as int, indicator@)
                        + merge_from(
                        text@,
                        pos as int,
                        li as int + 1,
                        anns@,
                        next_k(anns@, k0, li as int),
                        indicator@,
                    ),
                decreases anns.len() - k,
            {
                let a = &anns[k];
                let mut av = build_ann(a.col, indicator, &a.loc.path, a.loc.line, a.loc.column);
                proof {
                    assert(out@ + (pending_ann(anns@[k as int], indicator@) + seq![10u8]
                        + flush_out(anns@, k as int + 1, li as int, indicator@)) =~= ((out@
                        + pending_ann(anns@[k as int], indicator@)).push(10u8)) + flush_out(
                        anns@,
                        k as int + 1,
                        li as int,
                        indicator@,
                    ));
                }
                out.append(&mut av);
                out.push(10);
                k = k + 1;
            }
            li = li + 1;
        }
    }
    let ghost k0 = k as int;
    if k < anns.len() && anns[k].line_index == li {
        if text.len() > 0 && text[text.len() - 1] != 10 {
            out.push(10);
        }
        while k < anns.len() && anns[k].line_index == li
            invariant
                k0 <= k <= anns.len(),
                total == out@ + flush_out(anns@, k as int, li as int, indicator@),
            decreases anns.len() - k,
        {
            let a = &anns[k];
            let mut av = build_ann(a.col, indicator, &a.loc.path, a.loc.line, a.loc.column);
            proof {
                assert(out@ + (pending_ann(anns@[k as int], indicator@) + seq![10u8] + flush_out(
                    anns@,
                    k as int + 1,
                    li as int,
                    indicator@,
                )) =~= ((out@ + pending_ann(anns@[k as int], indicator@)).push(10u8)) + flush_out(
                    anns@,
                    k as int + 1,
                    li as int,
                    indicator@,
                ));
            }
            out.append(&mut av);
            out.push(10);
            k = k + 1;
        }
        proof {
            assert(out@ + flush_out(anns@, k as int, li as int, indicator@) =~= out@);
        }
    } else {
        proof {
            assert(flush_out(anns@, k as int, li as int, indicator@).len() == 0);
            assert(out@ + merge_from(text@, pos as int, li as int, anns@, k as int, indicator@)
                =~= out@);
        }
    }
    out
}

/// With nothing to insert, the merge reproduces the text byte for byte.
proof fn lemma_merge_noop_from(t: Seq<u8>, pos: int, li: int, ind: Seq<u8>)
    requires
        0 <= pos <= t.len(),
    ensures
        merge_from(t, pos, li, Seq::empty(), 0, ind) == t.subrange(pos, t.len() as int),
    decreases t.len() - pos,
{
    if pos == t.len() {
        assert(t.subrange(pos, t.len() as int) =~= Seq::<u8>::empty());
    } else {
        lemma_merge_noop_from(t, pos + 1, li + 1, ind);
        lemma_merge_noop_from(t, pos + 1, li, ind);
        assert(seq![t[pos]] + t.subrange(pos + 1, t.len() as int) =~= t.subrange(
            pos,
            t.len() as int,
        ));
        if t[pos] == 10 {
            assert(seq![10u8] + flush_out(Seq::empty(), 0, li, ind) + t.subrange(
                pos + 1,
                t.len() as int,
            ) =~= t.subrange(pos, t.len() as int));
        }
    }
}

/// Idempotence of the no-op: a text for which no reference was resolved is
/// annotated to exactly itself.
pub proof fn lemma_annotate_noop(t: Seq<u8>, ind: Seq<u8>)
    ensures
        merge_from(t, 0, 0, Seq::empty(), 0, ind) == t,
{
    lemma_merge_noop_from(t, 0, 0, ind);
    assert(t.subrange(0, t.len() as int) =~= t);
}

} // verus!
