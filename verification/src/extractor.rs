//! Line-windowed extraction of references from log text.
//!
//! The scanner works over windows of two consecutive lines (the largest
//! number of lines any pattern may span). Each scanned window yields at most
//! one match; the match is attributed to the line holding its end offset,
//! overwriting anything recorded for that line by an earlier window. A line's
//! record is final once every window containing it has been scanned.
//!
//! Two interfaces are offered: an incremental one (`push_line` / `end`) and a
//! whole-buffer one (`extract_all`). Both promise, line for line, the record
//! given by the same model function `slot_final`, so their results agree by
//! construction.

use vstd::prelude::*;

use crate::scan::GMatch;
use crate::scan::clamp32;
use crate::scan::lemma_scan_bounds;
use crate::scan::scan_spec;
use crate::scan::scan_window;
use crate::sat_sub;
use crate::usize_sat_sub;

verus! {

/// One extracted reference, relative to the line that carries it: a half-open
/// byte span (the start clamped to the line when the match began on the
/// previous line), the captured path, a 1-indexed line number and an optional
/// 1-indexed column.
#[derive(Debug)]
pub struct ExtractResult {
    pub start: usize,
    pub end: usize,
    pub path: Vec<u8>,
    pub line: u32,
    pub column: Option<u32>,
}

/// The record reports the same span and captures as the mathematical match.
pub open spec fn rec_ok(r: ExtractResult, g: GMatch) -> bool {
    &&& r.start == g.start
    &&& r.end == g.end
    &&& r.path@ == g.path
    &&& r.line == clamp32(g.line)
    &&& match (r.column, g.column) {
        (None, None) => true,
        (Some(c), Some(v)) => c == clamp32(v),
        _ => false,
    }
}

pub open spec fn slot_ok(o: Option<ExtractResult>, g: Option<GMatch>) -> bool {
    match (o, g) {
        (None, None) => true,
        (Some(r), Some(g0)) => rec_ok(r, g0),
        _ => false,
    }
}

/// The text a two-line window scans: both lines joined by the separator.
pub open spec fn win_text(a: Seq<u8>, b: Seq<u8>) -> Seq<u8> {
    a + seq![10u8] + b
}

/// A window match re-expressed relative to the line starting at offset `ls`
/// of the window; the start is clamped to the line.
pub open spec fn rel_of(g: GMatch, ls: int) -> GMatch {
    GMatch {
        start: sat_sub(g.start, ls),
        end: g.end - ls,
        path: g.path,
        line: g.line,
        column: g.column,
    }
}

/// The record window `j` (lines `j` and `j + 1` of the history) writes to its
/// local line `loc`: the window's match, if its end offset falls in that
/// line. A match ending exactly on the separator belongs to the line before
/// the separator.
#[verifier::opaque]
pub open spec fn slot_from_win(h: Seq<Seq<u8>>, j: int, loc: int) -> Option<GMatch> {
    if 0 <= j && j + 1 < h.len() {
        match scan_spec(win_text(h[j], h[j + 1])) {
            Some(g) => {
                let l: int = if g.end <= h[j].len() {
                    0
                } else {
                    1
                };
                if l == loc {
                    Some(
                        rel_of(
                            g,
                            if loc == 0 {
                                0
                            } else {
                                h[j].len() as int + 1
                            },
                        ),
                    )
                } else {
                    None
                }
            },
            None => None,
        }
    } else {
        None
    }
}

/// The final record of line `i` after every window of the history `h` has
/// been scanned: window `i` wrote it last, else window `i - 1`, else nothing.
/// A single-line history is scanned as one window of one line.
#[verifier::opaque]
pub open spec fn slot_final(h: Seq<Seq<u8>>, i: int) -> Option<GMatch> {
    if !(0 <= i < h.len()) {
        None
    } else if h.len() == 1 {
        match scan_spec(h[0]) {
            Some(g) => Some(rel_of(g, 0)),
            None => None,
        }
    } else if slot_from_win(h, i, 0) is Some {
        slot_from_win(h, i, 0)
    } else {
        slot_from_win(h, i - 1, 1)
    }
}

/// A line's final record does not change when more lines arrive, once the
/// window after it has been scanned. This is what lets the incremental
/// interface emit records early and still agree with the whole-buffer one.
pub proof fn lemma_slot_stable(h: Seq<Seq<u8>>, x: Seq<u8>, i: int)
    requires
        0 <= i <= h.len() - 2,
    ensures
        slot_final(h.push(x), i) == slot_final(h, i),
{
    reveal(slot_from_win);
    reveal(slot_final);
    let h1 = h.push(x);
    assert(forall|y: int| 0 <= y < h.len() ==> h1[y] == h[y]);
    assert(slot_from_win(h1, i, 0) == slot_from_win(h, i, 0));
    assert(slot_from_win(h1, i - 1, 1) == slot_from_win(h, i - 1, 1));
}

/// Span invariant: every emitted record's span lies inside the line that
/// carries it, with `0 <= start <= end <= len(line)`.
pub proof fn lemma_span_invariant(h: Seq<Seq<u8>>, i: int)
    requires
        0 <= i < h.len(),
    ensures
        match slot_final(h, i) {
            Some(g) => 0 <= g.start <= g.end <= h[i].len(),
            None => true,
        },
{
    reveal(slot_from_win);
    reveal(slot_final);
    if h.len() == 1 {
        lemma_scan_bounds(h[0]);
    } else {
        if slot_from_win(h, i, 0) is Some {
            lemma_scan_bounds(win_text(h[i], h[i + 1]));
        } else if slot_from_win(h, i - 1, 1) is Some {
            lemma_scan_bounds(win_text(h[i - 1], h[i]));
        }
    }
}

fn join2(a: &Vec<u8>, b: &Vec<u8>) -> (t: Vec<u8>)
    ensures
        t@ == win_text(a@, b@),
{
    let mut t: Vec<u8> = Vec::new();
    let mut k: usize = 0;
    while k < a.len()
        invariant
            k <= a.len(),
            t@ == a@.subrange(0, k as int),
        decreases a.len() - k,
    {
        t.push(a[k]);
        proof {
            assert(a@.subrange(0, k as int).push(a@[k as int]) =~= a@.subrange(0, k + 1));
        }
        k = k + 1;
    }
    t.push(10);
    let mut j: usize = 0;
    while j < b.len()
        invariant
            j <= b.len(),
            t@ == a@ + seq![10u8] + b@.subrange(0, j as int),
        decreases b.len() - j,
    {
        t.push(b[j]);
        proof {
            assert((a@ + seq![10u8] + b@.subrange(0, j as int)).push(b@[j as int]) =~= a@
                + seq![10u8] + b@.subrange(0, j + 1));
        }
        j = j + 1;
    }
    proof {
        assert(a@.subrange(0, a@.len() as int) =~= a@);
        assert(b@.subrange(0, b@.len() as int) =~= b@);
        assert(a@ + seq![10u8] + b@.subrange(0, 0) =~= a@.push(10u8));
        assert(a@.subrange(0, a@.len() as int).push(10u8) =~= a@ + seq![10u8] + b@.subrange(0, 0));
    }
    t
}

/// The incremental extractor: a bounded queue of the most recent lines, each
/// with the record currently attributed to it. `hist` is the mathematical
/// history of every line pushed since construction (or since the last drain).
pub struct Extractor {
    pub lines: Vec<(Vec<u8>, Option<ExtractResult>)>,
    pub hist: Ghost<Seq<Seq<u8>>>,
}

impl Extractor {
    /// The queue holds the last one or two lines of the history; the older
    /// line's record is final, the newest line's record reflects only the
    /// window that ends at it.
    pub open spec fn wf(self) -> bool {
        let h = self.hist@;
        let q = self.lines@;
        &&& (h.len() == 0 ==> q.len() == 0)
        &&& (h.len() == 1 ==> q.len() == 1 && q[0].0@ == h[0] && q[0].1 is None)
        &&& (h.len() >= 2 ==> q.len() == 2 && q[0].0@ == h[h.len() - 2] && q[1].0@ == h[h.len()
            - 1] && slot_ok(q[0].1, slot_final(h, h.len() - 2)) && slot_ok(
            q[1].1,
            slot_from_win(h, h.len() - 2, 1),
        ))
    }

    pub fn new() -> (e: Extractor)
        ensures
            e.wf(),
            e.hist@.len() == 0,
    {
        Extractor { lines: Vec::new(), hist: Ghost(Seq::empty()) }
    }

    /// Feed one line (without its separator). Once more lines than the
    /// window depth are queued, the oldest line is returned together with its
    /// final record.
    pub fn push_line(&mut self, line: Vec<u8>) -> (r: Option<(Vec<u8>, Option<ExtractResult>)>)
        requires
            old(self).wf(),
        ensures
            final(self).wf(),
            final(self).hist@ == old(self).hist@.push(line@),
            ({
                let h0 = old(self).hist@;
                let h1 = h0.push(line@);
                match r {
                    None => h0.len() < 2,
                    Some(p) => h0.len() >= 2 && p.0@ == h0[h0.len() - 2] && slot_ok(
                        p.1,
                        slot_final(h1, h0.len() - 2),
                    ),
                }
            }),
    {
        proof {
            reveal(slot_from_win);
            reveal(slot_final);
        }
        let ghost h0 = self.hist@;
        let ghost lv = line@;
        self.hist = Ghost(h0.push(lv));
        let ghost h1 = self.hist@;
        proof {
            assert(forall|y: int| 0 <= y < h0.len() ==> h1[y] == h0[y]);
        }
        let mut ret: Option<(Vec<u8>, Option<ExtractResult>)> = None;
        self.lines.push((line, None));
        if self.lines.len() > 2 {
            ret = Some(self.lines.remove(0));
            proof {
                lemma_slot_stable(h0, lv, h0.len() - 2);
            }
        }
        if self.lines.len() == 2 {
            let e1 = self.lines.pop().unwrap();
            let e0 = self.lines.pop().unwrap();
            let text = join2(&e0.0, &e1.0);
            proof {
                assert(text@ == win_text(h1[h1.len() - 2], h1[h1.len() - 1]));
            }
            let m_opt = scan_window(&text);
            proof {
                lemma_scan_bounds(text@);
            }
            match m_opt {
                Some(m) => {
                    if m.end <= e0.0.len() {
                        let rec = ExtractResult {
                            start: m.start,
                            end: m.end,
                            path: m.path,
                            line: m.line,
                            column: m.column,
                        };
                        self.lines.push((e0.0, Some(rec)));
                        self.lines.push(e1);
                    } else {
                        let ls = e0.0.len() + 1;
                        let rec = ExtractResult {
                            start: usize_sat_sub(m.start, ls),
                            end: m.end - ls,
                            path: m.path,
                            line: m.line,
                            column: m.column,
                        };
                        self.lines.push(e0);
                        self.lines.push((e1.0, Some(rec)));
                    }
                },
                None => {
                    self.lines.push(e0);
                    self.lines.push(e1);
                },
            }
        }
        ret
    }

    /// Drain the remaining queued lines, each with its final record. A
    /// history shorter than the window depth is scanned here as a single
    /// window.
    pub fn end(&mut self) -> (r: Vec<(Vec<u8>, Option<ExtractResult>)>)
        requires
            old(self).wf(),
        ensures
            final(self).wf(),
            final(self).hist@.len() == 0,
            ({
                let h = old(self).hist@;
                let n = if h.len() < 2 {
                    h.len() as int
                } else {
                    2
                };
                &&& r@.len() == n
                &&& forall|k: int|
                    0 <= k < n ==> r@[k].0@ == h[h.len() - n + k] && slot_ok(
                        r@[k].1,
                        slot_final(h, h.len() - n + k),
                    )
            }),
    {
        proof {
            reveal(slot_from_win);
            reveal(slot_final);
        }
        let ghost h = self.hist@;
        let mut out: Vec<(Vec<u8>, Option<ExtractResult>)> = Vec::new();
        if self.lines.len() == 1 {
            let e = self.lines.pop().unwrap();
            let m_opt = scan_window(&e.0);
            proof {
                lemma_scan_bounds(e.0@);
            }
            let slot = match m_opt {
                Some(m) => Some(
                    ExtractResult {
                        start: m.start,
                        end: m.end,
                        path: m.path,
                        line: m.line,
                        column: m.column,
                    },
                ),
                None => None,
            };
            out.push((e.0, slot));
        } else if self.lines.len() == 2 {
            let e0 = self.lines.remove(0);
            let e1 = self.lines.remove(0);
            out.push(e0);
            out.push(e1);
        }
        self.hist = Ghost(Seq::empty());
        out
    }
}

/// The whole-buffer interface: split the text at line separators, scan every
/// window, and report each line together with its final record. Grouped line
/// by line, the result is exactly what the incremental interface emits for
/// the same lines.
pub fn extract_all(text: &Vec<u8>) -> (r: Vec<(Vec<u8>, Option<ExtractResult>)>)
    ensures
        ({
            let ls = lines_spec(text@);
            &&& r@.len() == ls.len()
            &&& forall|k: int|
                0 <= k < ls.len() ==> r@[k].0@ == ls[k] && slot_ok(r@[k].1, slot_final(ls, k))
        }),
{
    let lines = split_lines(text);
    proof {
        lemma_prefix_index(lines@);
        assert(lines_seq_prefix(lines@) =~= lines_spec(text@));
    }
    extract_from_lines(&lines)
}

/// The scan over a ready sequence of lines, driving the incremental
/// extractor and collecting each line with its final record.
/// Each reported pair holds the line and its final record, in line order.
pub open spec fn per_line_ok(lines: Seq<Vec<u8>>, r: Seq<(Vec<u8>, Option<ExtractResult>)>) -> bool {
    &&& r.len() == lines.len()
    &&& forall|k: int|
        0 <= k < r.len() ==> r[k].0@ == lines[k]@ && slot_ok(
            r[k].1,
            slot_final(lines_seq_prefix(lines), k),
        )
}

#[verifier::rlimit(100)]
pub fn extract_from_lines(lines: &Vec<Vec<u8>>) -> (r: Vec<(Vec<u8>, Option<ExtractResult>)>)
    ensures
        per_line_ok(lines@, r@),
{
    let ghost ls = lines_seq_prefix(lines@);
    let mut ex = Extractor::new();
    let mut out: Vec<(Vec<u8>, Option<ExtractResult>)> = Vec::new();
    proof {
        lemma_prefix_index(lines@);
        assert(ex.hist@ =~= ls.subrange(0, 0));
    }
    let mut i: usize = 0;
    while i < lines.len()
        invariant
            i <= lines.len(),
            lines@.len() == ls.len(),
            forall|k: int| 0 <= k < ls.len() ==> lines@[k]@ == ls[k],
            ex.wf(),
            ex.hist@ == ls.subrange(0, i as int),
            out@.len() as int == (if i < 2 {
                0int
            } else {
                i as int - 2
            }),
            forall|k: int|
                0 <= k < out@.len() ==> out@[k].0@ == ls[k] && slot_ok(
                    out@[k].1,
                    slot_final(ls, k),
                ),
        decreases lines.len() - i,
    {
        let line = copy_vec(&lines[i]);
        let ghost hbefore = ex.hist@;
        let popped = ex.push_line(line);
        proof {
            assert(hbefore.push(ls[i as int]) =~= ls.subrange(0, i + 1));
        }
        match popped {
            Some(p) => {
                proof {
                    lemma_final_extends(ls, i as int + 1, i as int - 2);
                    assert(ls.subrange(0, i as int)[i as int - 2] == ls[i as int - 2]);
                }
                out.push(p);
            },
            None => {},
        }
        i = i + 1;
    }
    let mut rest = ex.end();
    proof {
        assert(ls.subrange(0, ls.len() as int) =~= ls);
    }
    let ghost rest0 = rest@;
    let ghost n0 = out@.len() as int;
    let ghost mut j: int = 0;
    while rest.len() > 0
        invariant
            out@.len() == n0 + j,
            rest@ == rest0.subrange(j, rest0.len() as int),
            0 <= j <= rest0.len(),
            n0 + rest0.len() == ls.len(),
            forall|k: int|
                0 <= k < rest0.len() ==> rest0[k].0@ == ls[n0 + k] && slot_ok(
                    rest0[k].1,
                    slot_final(ls, n0 + k),
                ),
            forall|k: int|
                0 <= k < out@.len() ==> out@[k].0@ == ls[k] && slot_ok(
                    out@[k].1,
                    slot_final(ls, k),
                ),
        decreases rest.len(),
    {
        let e = rest.remove(0);
        proof {
            assert(rest0.subrange(j, rest0.len() as int)[0] == rest0[j]);
            assert(rest@ =~= rest0.subrange(j + 1, rest0.len() as int));
        }
        out.push(e);
        proof {
            j = j + 1;
        }
    }
    proof {
        assert(j == rest0.len());
        assert(out@.len() == lines@.len());
        assert forall|k: int|
            0 <= k < out@.len() implies out@[k].0@ == lines@[k]@ && slot_ok(
            out@[k].1,
            slot_final(lines_seq_prefix(lines@), k),
        ) by {
            assert(ls == lines_seq_prefix(lines@));
            assert(out@[k].0@ == ls[k]);
            assert(ls[k] == lines@[k]@);
            assert(slot_ok(out@[k].1, slot_final(ls, k)));
        }
        assert(per_line_ok(lines@, out@));
    }
    out
}

/// Records already emitted stay correct as the history grows.
proof fn lemma_final_extends(ls: Seq<Seq<u8>>, upto: int, i: int)
    requires
        0 <= i,
        i + 2 <= upto <= ls.len(),
    ensures
        slot_final(ls.subrange(0, upto), i) == slot_final(ls, i),
    decreases ls.len() - upto,
{
    if upto == ls.len() {
        assert(ls.subrange(0, upto) =~= ls);
    } else {
        assert(ls.subrange(0, upto).push(ls[upto]) =~= ls.subrange(0, upto + 1));
        lemma_slot_stable(ls.subrange(0, upto), ls[upto], i);
        lemma_final_extends(ls, upto + 1, i);
    }
}

fn copy_vec(v: &Vec<u8>) -> (r: Vec<u8>)
    ensures
        r@ == v@,
{
    let mut r: Vec<u8> = Vec::new();
    let mut k: usize = 0;
    while k < v.len()
        invariant
            k <= v.len(),
            r@ == v@.subrange(0, k as int),
        decreases v.len() - k,
    {
        r.push(v[k]);
        proof {
            assert(v@.subrange(0, k as int).push(v@[k as int]) =~= v@.subrange(0, k + 1));
        }
        k = k + 1;
    }
    proof {
        assert(v@.subrange(0, v@.len() as int) =~= v@);
    }
    r
}

// ---------------------------------------------------------------------------
// Splitting a buffer into lines
// ---------------------------------------------------------------------------

pub open spec fn run_nonl_end(t: Seq<u8>, i: int) -> int
    decreases t.len() - i,
{
    if 0 <= i && i < t.len() && t[i] != 10 {
        run_nonl_end(t, i + 1)
    } else {
        i
    }
}

/// The lines of a buffer: maximal runs of bytes between line separators; a
/// final separator closes the last line without opening a new one.
pub open spec fn lines_spec(t: Seq<u8>) -> Seq<Seq<u8>>
    decreases t.len(),
{
    if t.len() == 0 {
        Seq::empty()
    } else {
        let k = run_nonl_end(t, 0);
        if !(0 <= k < t.len()) {
            seq![t]
        } else {
            seq![t.subrange(0, k)] + lines_spec(t.subrange(k + 1, t.len() as int))
        }
    }
}

proof fn lemma_run_nonl_shift(t: Seq<u8>, p: int, i: int)
    requires
        0 <= p <= p + i <= t.len(),
    ensures
        run_nonl_end(t.subrange(p, t.len() as int), i) + p == run_nonl_end(t, p + i),
    decreases t.len() - p - i,
{
    let u = t.subrange(p, t.len() as int);
    if 0 <= i && i < u.len() && u[i] != 10 {
        lemma_run_nonl_shift(t, p, i + 1);
    }
}

pub fn split_lines(text: &Vec<u8>) -> (r: Vec<Vec<u8>>)
    ensures
        r@.len() == lines_spec(text@).len(),
        forall|k: int| 0 <= k < r@.len() ==> r@[k]@ == lines_spec(text@)[k],
{
    let ghost total = lines_spec(text@);
    let mut r: Vec<Vec<u8>> = Vec::new();
    let mut pos: usize = 0;
    proof {
        reveal(lines_seq_prefix);
        assert(text@.subrange(0, text@.len() as int) =~= text@);
        assert(lines_seq_prefix(r@) + lines_spec(text@) =~= lines_spec(text@));
    }
    while pos < text.len()
        invariant
            pos <= text.len(),
            total == lines_seq_prefix(r@) + lines_spec(
                text@.subrange(pos as int, text@.len() as int),
            ),
            r@.len() == lines_seq_prefix(r@).len(),
            forall|k: int| 0 <= k < r@.len() ==> #[trigger] lines_seq_prefix(r@)[k] == r@[k]@,
        decreases text.len() - pos,
    {
        let mut k = pos;
        while k < text.len() && text[k] != 10
            invariant
                pos <= k <= text.len(),
                run_nonl_end(text@, pos as int) == run_nonl_end(text@, k as int),
            decreases text.len() - k,
        {
            k = k + 1;
        }
        let piece = crate::scan::copy_range(text, pos, k);
        let ghost prev = r@;
        let ghost rem = text@.subrange(pos as int, text@.len() as int);
        proof {
            lemma_run_nonl_shift(text@, pos as int, 0);
            assert(run_nonl_end(rem, 0) == k - pos);
            assert(rem.subrange(0, (k - pos) as int) =~= text@.subrange(pos as int, k as int));
            if k < text@.len() {
                assert(rem.subrange(k - pos + 1, rem.len() as int) =~= text@.subrange(
                    k + 1,
                    text@.len() as int,
                ));
                assert(lines_spec(rem) == seq![piece@] + lines_spec(
                    text@.subrange(k + 1, text@.len() as int),
                ));
            } else {
                assert(rem =~= piece@);
                assert(lines_spec(rem) == seq![piece@]);
            }
            lemma_prefix_push(prev, piece);
        }
        r.push(piece);
        if k < text.len() {
            pos = k + 1;
            proof {
                assert(lines_seq_prefix(r@) + lines_spec(
                    text@.subrange(pos as int, text@.len() as int),
                ) =~= lines_seq_prefix(prev) + lines_spec(rem));
            }
        } else {
            pos = k;
            proof {
                assert(text@.subrange(pos as int, text@.len() as int).len() == 0);
                assert(lines_spec(text@.subrange(pos as int, text@.len() as int))
                    == Seq::<Seq<u8>>::empty());
                assert(lines_seq_prefix(r@) + lines_spec(
                    text@.subrange(pos as int, text@.len() as int),
                ) =~= lines_seq_prefix(prev) + lines_spec(rem));
            }
        }
    }
    proof {
        assert(text@.subrange(pos as int, text@.len() as int).len() == 0);
        assert(lines_spec(text@.subrange(pos as int, text@.len() as int)) == Seq::<
            Seq<u8>,
        >::empty());
        assert(total =~= lines_seq_prefix(r@));
    }
    r
}

/// The views of a sequence of owned lines.
#[verifier::opaque]
pub open spec fn lines_seq_prefix(v: Seq<Vec<u8>>) -> Seq<Seq<u8>> {
    v.map(|i: int, x: Vec<u8>| x@)
}

/// Element-wise reading of `lines_seq_prefix`.
pub proof fn lemma_prefix_index(v: Seq<Vec<u8>>)
    ensures
        lines_seq_prefix(v).len() == v.len(),
        forall|k: int| 0 <= k < v.len() ==> #[trigger] lines_seq_prefix(v)[k] == v[k]@,
{
    reveal(lines_seq_prefix);
}

proof fn lemma_prefix_push(v: Seq<Vec<u8>>, x: Vec<u8>)
    ensures
        lines_seq_prefix(v.push(x)) =~= lines_seq_prefix(v).push(x@),
{
    reveal(lines_seq_prefix);
}

} // verus!
