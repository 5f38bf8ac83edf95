//! Byte-level recognition of the reference patterns.
//!
//! A reference is a textual occurrence of a file/line(/column) location in a
//! tool log. Four pattern shapes are recognized, tried in priority order over
//! a window of text; the first pattern that matches anywhere in the window
//! wins, and within one pattern the leftmost match wins.

use vstd::prelude::*;

verus! {

// ---------------------------------------------------------------------------
// Byte classes
// ---------------------------------------------------------------------------

/// Bytes allowed in a quoted-or-bare path capture: anything but space, double
/// quote and newline.
pub open spec fn c1(b: u8) -> bool {
    b != 32 && b != 34 && b != 10
}

/// Bytes allowed in a colon-delimited path capture: anything but colon,
/// space and square brackets.
pub open spec fn c2(b: u8) -> bool {
    b != 58 && b != 32 && b != 91 && b != 93
}

pub open spec fn is_digit(b: u8) -> bool {
    48 <= b && b <= 57
}

/// Whitespace between the two lines of the two-line pattern.
pub open spec fn is_ws(b: u8) -> bool {
    b == 32 || b == 9 || b == 10 || b == 13 || b == 11 || b == 12
}

/// Bytes allowed inside a single-quoted path: anything but a single quote.
pub open spec fn nq(b: u8) -> bool {
    b != 39
}

// ---------------------------------------------------------------------------
// Maximal runs of a byte class
// ---------------------------------------------------------------------------

pub open spec fn run_c1_end(t: Seq<u8>, i: int) -> int
    decreases t.len() - i,
{
    if 0 <= i && i < t.len() && c1(t[i]) {
        run_c1_end(t, i + 1)
    } else {
        i
    }
}

pub open spec fn run_c2_end(t: Seq<u8>, i: int) -> int
    decreases t.len() - i,
{
    if 0 <= i && i < t.len() && c2(t[i]) {
        run_c2_end(t, i + 1)
    } else {
        i
    }
}

pub open spec fn run_digit_end(t: Seq<u8>, i: int) -> int
    decreases t.len() - i,
{
    if 0 <= i && i < t.len() && is_digit(t[i]) {
        run_digit_end(t, i + 1)
    } else {
        i
    }
}

pub open spec fn run_ws_end(t: Seq<u8>, i: int) -> int
    decreases t.len() - i,
{
    if 0 <= i && i < t.len() && is_ws(t[i]) {
        run_ws_end(t, i + 1)
    } else {
        i
    }
}

pub open spec fn run_nq_end(t: Seq<u8>, i: int) -> int
    decreases t.len() - i,
{
    if 0 <= i && i < t.len() && nq(t[i]) {
        run_nq_end(t, i + 1)
    } else {
        i
    }
}

fn exec_run_c1(t: &Vec<u8>, i: usize) -> (j: usize)
    requires
        i <= t.len(),
    ensures
        j == run_c1_end(t@, i as int),
        i <= j <= t.len(),
        forall|x: int| i <= x < j ==> c1(t@[x]),
{
    let mut j = i;
    while j < t.len() && (t[j] != 32 && t[j] != 34 && t[j] != 10)
        invariant
            i <= j <= t.len(),
            run_c1_end(t@, i as int) == run_c1_end(t@, j as int),
            forall|x: int| i <= x < j ==> c1(t@[x]),
        decreases t.len() - j,
    {
        j = j + 1;
    }
    j
}

fn exec_run_c2(t: &Vec<u8>, i: usize) -> (j: usize)
    requires
        i <= t.len(),
    ensures
        j == run_c2_end(t@, i as int),
        i <= j <= t.len(),
        forall|x: int| i <= x < j ==> c2(t@[x]),
{
    let mut j = i;
    while j < t.len() && (t[j] != 58 && t[j] != 32 && t[j] != 91 && t[j] != 93)
        invariant
            i <= j <= t.len(),
            run_c2_end(t@, i as int) == run_c2_end(t@, j as int),
            forall|x: int| i <= x < j ==> c2(t@[x]),
        decreases t.len() - j,
    {
        j = j + 1;
    }
    j
}

fn exec_run_digit(t: &Vec<u8>, i: usize) -> (j: usize)
    requires
        i <= t.len(),
    ensures
        j == run_digit_end(t@, i as int),
        i <= j <= t.len(),
        forall|x: int| i <= x < j ==> is_digit(t@[x]),
{
    let mut j = i;
    while j < t.len() && 48 <= t[j] && t[j] <= 57
        invariant
            i <= j <= t.len(),
            run_digit_end(t@, i as int) == run_digit_end(t@, j as int),
            forall|x: int| i <= x < j ==> is_digit(t@[x]),
        decreases t.len() - j,
    {
        j = j + 1;
    }
    j
}

fn exec_run_ws(t: &Vec<u8>, i: usize) -> (j: usize)
    requires
        i <= t.len(),
    ensures
        j == run_ws_end(t@, i as int),
        i <= j <= t.len(),
{
    let mut j = i;
    while j < t.len() && (t[j] == 32 || t[j] == 9 || t[j] == 10 || t[j] == 13 || t[j] == 11
        || t[j] == 12)
        invariant
            i <= j <= t.len(),
            run_ws_end(t@, i as int) == run_ws_end(t@, j as int),
        decreases t.len() - j,
    {
        j = j + 1;
    }
    j
}

fn exec_run_nq(t: &Vec<u8>, i: usize) -> (j: usize)
    requires
        i <= t.len(),
    ensures
        j == run_nq_end(t@, i as int),
        i <= j <= t.len(),
{
    let mut j = i;
    while j < t.len() && t[j] != 39
        invariant
            i <= j <= t.len(),
            run_nq_end(t@, i as int) == run_nq_end(t@, j as int),
        decreases t.len() - j,
    {
        j = j + 1;
    }
    j
}

// ---------------------------------------------------------------------------
// Literal fragments
// ---------------------------------------------------------------------------

/// `t` holds exactly the bytes of `l` starting at offset `i`.
pub open spec fn lit_at(t: Seq<u8>, i: int, l: Seq<u8>) -> bool {
    &&& 0 <= i
    &&& i + l.len() <= t.len()
    &&& t.subrange(i, i + l.len()) == l
}

pub(crate) fn exec_lit_at(t: &Vec<u8>, i: usize, l: &Vec<u8>) -> (r: bool)
    ensures
        r == lit_at(t@, i as int, l@),
{
    if i > t.len() || t.len() - i < l.len() {
        proof {
            if lit_at(t@, i as int, l@) {
                assert(i + l@.len() <= t@.len());
            }
        }
        return false;
    }
    let n = t.len();
    let mut k: usize = 0;
    while k < l.len()
        invariant
            n == t@.len(),
            i + l@.len() <= t@.len(),
            0 <= k <= l.len(),
            forall|x: int| 0 <= x < k ==> t@[i + x] == l@[x],
        decreases l.len() - k,
    {
        assert(i + k < t@.len());
        if t[i + k] != l[k] {
            proof {
                if lit_at(t@, i as int, l@) {
                    assert(t@.subrange(i as int, i + l@.len())[k as int] == l@[k as int]);
                }
            }
            return false;
        }
        k = k + 1;
    }
    proof {
        assert(t@.subrange(i as int, i + l@.len()) =~= l@);
    }
    true
}

/// The fragment `line ` that may prefix a line number.
pub open spec fn line_lit() -> Seq<u8> {
    seq![108u8, 105u8, 110u8, 101u8, 32u8]
}

fn exec_line_lit() -> (v: Vec<u8>)
    ensures
        v@ == line_lit(),
{
    let mut v: Vec<u8> = Vec::new();
    v.push(108);
    v.push(105);
    v.push(110);
    v.push(101);
    v.push(32);
    proof {
        assert(v@ =~= line_lit());
    }
    v
}

/// The fragment `File: `.
pub open spec fn file_lit() -> Seq<u8> {
    seq![70u8, 105u8, 108u8, 101u8, 58u8, 32u8]
}

fn exec_file_lit() -> (v: Vec<u8>)
    ensures
        v@ == file_lit(),
{
    let mut v: Vec<u8> = Vec::new();
    v.push(70);
    v.push(105);
    v.push(108);
    v.push(101);
    v.push(58);
    v.push(32);
    proof {
        assert(v@ =~= file_lit());
    }
    v
}

/// The fragment ` Line: `.
pub open spec fn line2_lit() -> Seq<u8> {
    seq![32u8, 76u8, 105u8, 110u8, 101u8, 58u8, 32u8]
}

fn exec_line2_lit() -> (v: Vec<u8>)
    ensures
        v@ == line2_lit(),
{
    let mut v: Vec<u8> = Vec::new();
    v.push(32);
    v.push(76);
    v.push(105);
    v.push(110);
    v.push(101);
    v.push(58);
    v.push(32);
    proof {
        assert(v@ =~= line2_lit());
    }
    v
}

/// The fragment ` in file`.
pub open spec fn infile_lit() -> Seq<u8> {
    seq![32u8, 105u8, 110u8, 32u8, 102u8, 105u8, 108u8, 101u8]
}

fn exec_infile_lit() -> (v: Vec<u8>)
    ensures
        v@ == infile_lit(),
{
    let mut v: Vec<u8> = Vec::new();
    v.push(32);
    v.push(105);
    v.push(110);
    v.push(32);
    v.push(102);
    v.push(105);
    v.push(108);
    v.push(101);
    proof {
        assert(v@ =~= infile_lit());
    }
    v
}

// ---------------------------------------------------------------------------
// Decimal values
// ---------------------------------------------------------------------------

/// Value of a run of decimal digit bytes.
pub open spec fn dec_val(d: Seq<u8>) -> nat
    decreases d.len(),
{
    if d.len() == 0 {
        0
    } else {
        dec_val(d.drop_last()) * 10 + (if is_digit(d.last()) {
            (d.last() - 48) as nat
        } else {
            0
        })
    }
}

/// Captured numbers are clamped to the range of the record field.
pub open spec fn clamp32(n: nat) -> u32 {
    if n > 0xffff_ffff {
        0xffff_ffffu32
    } else {
        n as u32
    }
}

fn parse_dec(t: &Vec<u8>, a: usize, b: usize) -> (r: u32)
    requires
        a <= b <= t.len(),
        forall|x: int| a <= x < b ==> is_digit(t@[x]),
    ensures
        r == clamp32(dec_val(t@.subrange(a as int, b as int))),
{
    let mut acc: u64 = 0;
    let mut sat: bool = false;
    let mut k = a;
    while k < b
        invariant
            a <= k <= b <= t.len(),
            forall|x: int| a <= x < b ==> is_digit(t@[x]),
            !sat ==> acc == dec_val(t@.subrange(a as int, k as int)) && acc <= 0xffff_ffff,
            sat ==> dec_val(t@.subrange(a as int, k as int)) > 0xffff_ffff && acc
                == 0xffff_ffff,
        decreases b - k,
    {
        let d = t[k];
        proof {
            assert(t@.subrange(a as int, k + 1).drop_last() =~= t@.subrange(a as int, k as int));
            assert(t@.subrange(a as int, k + 1).last() == t@[k as int]);
        }
        if !sat {
            let next: u64 = acc * 10 + ((d - 48) as u64);
            if next > 0xffff_ffff {
                sat = true;
                acc = 0xffff_ffff;
            } else {
                acc = next;
            }
        } else {
            assert(dec_val(t@.subrange(a as int, k + 1)) > 0xffff_ffff);
        }
        k = k + 1;
    }
    acc as u32
}

pub(crate) fn copy_range(t: &Vec<u8>, a: usize, b: usize) -> (r: Vec<u8>)
    requires
        a <= b <= t.len(),
    ensures
        r@ == t@.subrange(a as int, b as int),
{
    let mut r: Vec<u8> = Vec::new();
    let mut k = a;
    while k < b
        invariant
            a <= k <= b <= t.len(),
            r@ == t@.subrange(a as int, k as int),
        decreases b - k,
    {
        r.push(t[k]);
        proof {
            assert(t@.subrange(a as int, k as int).push(t@[k as int]) =~= t@.subrange(
                a as int,
                k + 1,
            ));
        }
        k = k + 1;
    }
    r
}

// ---------------------------------------------------------------------------
// Matches
// ---------------------------------------------------------------------------

/// A mathematical match: a half-open byte span in the scanned text together
/// with the captured path, line and optional column values.
pub ghost struct GMatch {
    pub start: int,
    pub end: int,
    pub path: Seq<u8>,
    pub line: nat,
    pub column: Option<nat>,
}

/// An executable match over a scanned window.
pub struct WinMatch {
    pub start: usize,
    pub end: usize,
    pub path: Vec<u8>,
    pub line: u32,
    pub column: Option<u32>,
}

/// The executable match reports the same span and captures as the
/// mathematical one, numbers clamped to their field width.
pub open spec fn m_ok(m: WinMatch, g: GMatch) -> bool {
    &&& m.start == g.start
    &&& m.end == g.end
    &&& m.path@ == g.path
    &&& m.line == clamp32(g.line)
    &&& match (m.column, g.column) {
        (None, None) => true,
        (Some(c), Some(v)) => c == clamp32(v),
        _ => false,
    }
}

pub open spec fn m_ok_opt(m: Option<WinMatch>, g: Option<GMatch>) -> bool {
    match (m, g) {
        (None, None) => true,
        (Some(m0), Some(g0)) => m_ok(m0, g0),
        _ => false,
    }
}

// ---------------------------------------------------------------------------
// Pattern 1: quoted-or-bare path, comma, optional `line `, number
// ---------------------------------------------------------------------------

/// What may follow a path capture ending at `j`: an optional closing quote,
/// then `, `, an optional `line `, then at least one digit. Yields the match
/// end and the line value.
pub open spec fn comma_tail(t: Seq<u8>, j: int) -> Option<(int, nat)> {
    let k = if 0 <= j < t.len() && t[j] == 34 {
        j + 1
    } else {
        j
    };
    if 0 <= k && k + 1 < t.len() && t[k] == 44 && t[k + 1] == 32 {
        let k2 = k + 2;
        let k3 = if lit_at(t, k2, line_lit()) && k2 + 5 < t.len() && is_digit(t[k2 + 5]) {
            k2 + 5
        } else {
            k2
        };
        let d = run_digit_end(t, k3);
        if d > k3 {
            Some((d, dec_val(t.subrange(k3, d))))
        } else {
            None
        }
    } else {
        None
    }
}

fn exec_comma_tail(t: &Vec<u8>, j: usize) -> (r: Option<(usize, u32)>)
    requires
        j <= t.len(),
    ensures
        match (r, comma_tail(t@, j as int)) {
            (None, None) => true,
            (Some(p), Some(g)) => p.0 == g.0 && p.1 == clamp32(g.1) && p.0 <= t.len(),
            _ => false,
        },
{
    let mut k = j;
    if k < t.len() && t[k] == 34 {
        k = k + 1;
    }
    if k < t.len() && k + 1 < t.len() && t[k] == 44 && t[k + 1] == 32 {
        let mut k3 = k + 2;
        let ll = exec_line_lit();
        if exec_lit_at(t, k3, &ll) {
            if k3 + 5 < t.len() && 48 <= t[k3 + 5] && t[k3 + 5] <= 57 {
                k3 = k3 + 5;
            }
        }
        let d = exec_run_digit(t, k3);
        if d > k3 {
            let v = parse_dec(t, k3, d);
            Some((d, v))
        } else {
            None
        }
    } else {
        None
    }
}

/// Backtracking over the path capture's end offset, longest first.
/// Yields (path end, match end, line value).
pub open spec fn comma_back(t: Seq<u8>, i: int, j: int) -> Option<(int, int, nat)>
    decreases j - i,
{
    if j <= i {
        None
    } else {
        match comma_tail(t, j) {
            Some(p) => Some((j, p.0, p.1)),
            None => comma_back(t, i, j - 1),
        }
    }
}

fn exec_comma_back(t: &Vec<u8>, i: usize, e: usize) -> (r: Option<(usize, usize, u32)>)
    requires
        i <= e <= t.len(),
    ensures
        match (r, comma_back(t@, i as int, e as int)) {
            (None, None) => true,
            (Some(p), Some(g)) => p.0 == g.0 && p.1 == g.1 && p.2 == clamp32(g.2) && i < p.0
                <= e && p.1 <= t.len(),
            _ => false,
        },
{
    let mut j = e;
    while j > i
        invariant
            i <= j <= e <= t.len(),
            comma_back(t@, i as int, e as int) == comma_back(t@, i as int, j as int),
        decreases j - i,
    {
        match exec_comma_tail(t, j) {
            Some(p) => {
                return Some((j, p.0, p.1));
            },
            None => {
                j = j - 1;
            },
        }
    }
    None
}

/// Pattern 1 anchored at offset `s`: `"?path"?, (line )?N` where the path
/// excludes space, double quote and newline.
pub open spec fn comma_at(t: Seq<u8>, s: int) -> Option<GMatch> {
    if 0 <= s < t.len() {
        let i = if t[s] == 34 {
            s + 1
        } else {
            s
        };
        let e = run_c1_end(t, i);
        match comma_back(t, i, e) {
            Some(p) => Some(
                GMatch {
                    start: s,
                    end: p.1,
                    path: t.subrange(i, p.0),
                    line: p.2,
                    column: None,
                },
            ),
            None => None,
        }
    } else {
        None
    }
}

fn exec_comma_at(t: &Vec<u8>, s: usize) -> (r: Option<WinMatch>)
    requires
        s < t.len(),
    ensures
        m_ok_opt(r, comma_at(t@, s as int)),
        match r {
            Some(m) => m.start == s && m.start <= m.end <= t.len(),
            None => true,
        },
{
    proof {
        lemma_pat_bounds(Pat::Comma, t@, s as int);
    }
    let mut i = s;
    if t[s] == 34 {
        i = s + 1;
    }
    let e = exec_run_c1(t, i);
    match exec_comma_back(t, i, e) {
        Some(p) => {
            let path = copy_range(t, i, p.0);
            Some(WinMatch { start: s, end: p.1, path, line: p.2, column: None })
        },
        None => None,
    }
}

// ---------------------------------------------------------------------------
// Pattern 2: path:line or path:line:column
// ---------------------------------------------------------------------------

/// Pattern 2 anchored at offset `s`: `path:N` or `path:N:C` where the path
/// excludes colon, space and square brackets.
pub open spec fn colon_at(t: Seq<u8>, s: int) -> Option<GMatch> {
    if 0 <= s < t.len() && c2(t[s]) {
        let e = run_c2_end(t, s);
        if e < t.len() && t[e] == 58 {
            let d = run_digit_end(t, e + 1);
            if d > e + 1 {
                if d + 1 < t.len() && t[d] == 58 && is_digit(t[d + 1]) {
                    let c = run_digit_end(t, d + 1);
                    Some(
                        GMatch {
                            start: s,
                            end: c,
                            path: t.subrange(s, e),
                            line: dec_val(t.subrange(e + 1, d)),
                            column: Some(dec_val(t.subrange(d + 1, c))),
                        },
                    )
                } else {
                    Some(
                        GMatch {
                            start: s,
                            end: d,
                            path: t.subrange(s, e),
                            line: dec_val(t.subrange(e + 1, d)),
                            column: None,
                        },
                    )
                }
            } else {
                None
            }
        } else {
            None
        }
    } else {
        None
    }
}

fn exec_colon_at(t: &Vec<u8>, s: usize) -> (r: Option<WinMatch>)
    requires
        s < t.len(),
    ensures
        m_ok_opt(r, colon_at(t@, s as int)),
        match r {
            Some(m) => m.start == s && m.start <= m.end <= t.len(),
            None => true,
        },
{
    let b = t[s];
    if !(b != 58 && b != 32 && b != 91 && b != 93) {
        return None;
    }
    let e = exec_run_c2(t, s);
    if e < t.len() && t[e] == 58 {
        let d = exec_run_digit(t, e + 1);
        if d > e + 1 {
            let line = parse_dec(t, e + 1, d);
            let path = copy_range(t, s, e);
            if d < t.len() && d + 1 < t.len() && t[d] == 58 && 48 <= t[d + 1] && t[d + 1] <= 57 {
                let c = exec_run_digit(t, d + 1);
                let col = parse_dec(t, d + 1, c);
                Some(WinMatch { start: s, end: c, path, line, column: Some(col) })
            } else {
                Some(WinMatch { start: s, end: d, path, line, column: None })
            }
        } else {
            None
        }
    } else {
        None
    }
}

// ---------------------------------------------------------------------------
// Pattern 3: File: path Line: N
// ---------------------------------------------------------------------------

/// Pattern 3 anchored at offset `s`: `File: path Line: N`.
pub open spec fn file_line_at(t: Seq<u8>, s: int) -> Option<GMatch> {
    if lit_at(t, s, file_lit()) {
        let p = s + 6;
        let e = run_c2_end(t, p);
        if e > p && lit_at(t, e, line2_lit()) {
            let d = run_digit_end(t, e + 7);
            if d > e + 7 {
                Some(
                    GMatch {
                        start: s,
                        end: d,
                        path: t.subrange(p, e),
                        line: dec_val(t.subrange(e + 7, d)),
                        column: None,
                    },
                )
            } else {
                None
            }
        } else {
            None
        }
    } else {
        None
    }
}

fn exec_file_line_at(t: &Vec<u8>, s: usize) -> (r: Option<WinMatch>)
    requires
        s < t.len(),
    ensures
        m_ok_opt(r, file_line_at(t@, s as int)),
        match r {
            Some(m) => m.start == s && m.start <= m.end <= t.len(),
            None => true,
        },
{
    let fl = exec_file_lit();
    if !exec_lit_at(t, s, &fl) {
        return None;
    }
    let p = s + 6;
    let e = exec_run_c2(t, p);
    let l2 = exec_line2_lit();
    if e > p && exec_lit_at(t, e, &l2) {
        let d = exec_run_digit(t, e + 7);
        if d > e + 7 {
            let line = parse_dec(t, e + 7, d);
            let path = copy_range(t, p, e);
            Some(WinMatch { start: s, end: d, path, line, column: None })
        } else {
            None
        }
    } else {
        None
    }
}

// ---------------------------------------------------------------------------
// Pattern 4: line N in file / 'path' on the following line
// ---------------------------------------------------------------------------

pub open spec fn has_nl(t: Seq<u8>, a: int, b: int) -> bool {
    exists|k: int| a <= k < b && t[k] == 10
}

fn exec_has_nl(t: &Vec<u8>, a: usize, b: usize) -> (r: bool)
    requires
        a <= b <= t.len(),
    ensures
        r == has_nl(t@, a as int, b as int),
{
    let mut k = a;
    while k < b
        invariant
            a <= k <= b <= t.len(),
            forall|x: int| a <= x < k ==> t@[x] != 10,
        decreases b - k,
    {
        if t[k] == 10 {
            return true;
        }
        k = k + 1;
    }
    false
}

/// Pattern 4 anchored at offset `s`: `line N in file`, whitespace containing
/// a line break, then a single-quoted path.
pub open spec fn two_line_at(t: Seq<u8>, s: int) -> Option<GMatch> {
    if lit_at(t, s, line_lit()) {
        let d0 = s + 5;
        let d = run_digit_end(t, d0);
        if d > d0 && lit_at(t, d, infile_lit()) {
            let w0 = d + 8;
            let w = run_ws_end(t, w0);
            if has_nl(t, w0, w) && w < t.len() && t[w] == 39 {
                let p0 = w + 1;
                let pe = run_nq_end(t, p0);
                if pe > p0 && pe < t.len() && t[pe] == 39 {
                    Some(
                        GMatch {
                            start: s,
                            end: pe + 1,
                            path: t.subrange(p0, pe),
                            line: dec_val(t.subrange(d0, d)),
                            column: None,
                        },
                    )
                } else {
                    None
                }
            } else {
                None
            }
        } else {
            None
        }
    } else {
        None
    }
}

fn exec_two_line_at(t: &Vec<u8>, s: usize) -> (r: Option<WinMatch>)
    requires
        s < t.len(),
    ensures
        m_ok_opt(r, two_line_at(t@, s as int)),
        match r {
            Some(m) => m.start == s && m.start <= m.end <= t.len(),
            None => true,
        },
{
    let ll = exec_line_lit();
    if !exec_lit_at(t, s, &ll) {
        return None;
    }
    let d0 = s + 5;
    let d = exec_run_digit(t, d0);
    let infl = exec_infile_lit();
    if d > d0 && exec_lit_at(t, d, &infl) {
        let w0 = d + 8;
        let w = exec_run_ws(t, w0);
        if exec_has_nl(t, w0, w) && w < t.len() && t[w] == 39 {
            let p0 = w + 1;
            let pe = exec_run_nq(t, p0);
            if pe > p0 && pe < t.len() && t[pe] == 39 {
                let line = parse_dec(t, d0, d);
                let path = copy_range(t, p0, pe);
                Some(WinMatch { start: s, end: pe + 1, path, line, column: None })
            } else {
                None
            }
        } else {
            None
        }
    } else {
        None
    }
}

// ---------------------------------------------------------------------------
// Leftmost match of a pattern, and the priority scan over all patterns
// ---------------------------------------------------------------------------

#[derive(Clone, Copy, PartialEq, Eq, Structural)]
pub enum Pat {
    Comma,
    Colon,
    FileLine,
    TwoLine,
}

pub open spec fn pat_at(p: Pat, t: Seq<u8>, s: int) -> Option<GMatch> {
    match p {
        Pat::Comma => comma_at(t, s),
        Pat::Colon => colon_at(t, s),
        Pat::FileLine => file_line_at(t, s),
        Pat::TwoLine => two_line_at(t, s),
    }
}

/// The leftmost match of pattern `p` at or after offset `s`.
pub open spec fn find_from(p: Pat, t: Seq<u8>, s: int) -> Option<GMatch>
    decreases t.len() - s,
{
    if 0 <= s < t.len() {
        if pat_at(p, t, s) is Some {
            pat_at(p, t, s)
        } else {
            find_from(p, t, s + 1)
        }
    } else {
        None
    }
}

fn exec_pat_at(p: Pat, t: &Vec<u8>, s: usize) -> (r: Option<WinMatch>)
    requires
        s < t.len(),
    ensures
        m_ok_opt(r, pat_at(p, t@, s as int)),
        match r {
            Some(m) => m.start == s && m.start <= m.end <= t.len(),
            None => true,
        },
{
    match p {
        Pat::Comma => exec_comma_at(t, s),
        Pat::Colon => exec_colon_at(t, s),
        Pat::FileLine => exec_file_line_at(t, s),
        Pat::TwoLine => exec_two_line_at(t, s),
    }
}

fn exec_find(p: Pat, t: &Vec<u8>) -> (r: Option<WinMatch>)
    ensures
        m_ok_opt(r, find_from(p, t@, 0)),
        match r {
            Some(m) => m.start <= m.end <= t.len(),
            None => true,
        },
{
    let mut s: usize = 0;
    while s < t.len()
        invariant
            0 <= s <= t.len(),
            find_from(p, t@, 0) == find_from(p, t@, s as int),
        decreases t.len() - s,
    {
        match exec_pat_at(p, t, s) {
            Some(m) => {
                return Some(m);
            },
            None => {
                s = s + 1;
            },
        }
    }
    None
}

/// The scan of one window of text: patterns are tried in priority order and
/// the first pattern with a match anywhere in the window wins; within a
/// pattern the leftmost match wins.
#[verifier::opaque]
pub open spec fn scan_spec(t: Seq<u8>) -> Option<GMatch> {
    if find_from(Pat::Comma, t, 0) is Some {
        find_from(Pat::Comma, t, 0)
    } else if find_from(Pat::Colon, t, 0) is Some {
        find_from(Pat::Colon, t, 0)
    } else if find_from(Pat::FileLine, t, 0) is Some {
        find_from(Pat::FileLine, t, 0)
    } else {
        find_from(Pat::TwoLine, t, 0)
    }
}

pub fn scan_window(t: &Vec<u8>) -> (r: Option<WinMatch>)
    ensures
        m_ok_opt(r, scan_spec(t@)),
        match r {
            Some(m) => m.start <= m.end <= t.len(),
            None => true,
        },
{
    proof {
        reveal(scan_spec);
    }
    match exec_find(Pat::Comma, t) {
        Some(m) => Some(m),
        None => match exec_find(Pat::Colon, t) {
            Some(m) => Some(m),
            None => match exec_find(Pat::FileLine, t) {
                Some(m) => Some(m),
                None => exec_find(Pat::TwoLine, t),
            },
        },
    }
}

/// Every match a window scan yields has a well-formed span inside the window.
pub proof fn lemma_scan_bounds(t: Seq<u8>)
    ensures
        match scan_spec(t) {
            Some(g) => 0 <= g.start <= g.end <= t.len(),
            None => true,
        },
{
    reveal(scan_spec);
    lemma_find_bounds(Pat::Comma, t, 0);
    lemma_find_bounds(Pat::Colon, t, 0);
    lemma_find_bounds(Pat::FileLine, t, 0);
    lemma_find_bounds(Pat::TwoLine, t, 0);
}

proof fn lemma_run_bounds(t: Seq<u8>, i: int)
    requires
        0 <= i <= t.len(),
    ensures
        i <= run_c1_end(t, i) <= t.len(),
        i <= run_c2_end(t, i) <= t.len(),
        i <= run_digit_end(t, i) <= t.len(),
        i <= run_ws_end(t, i) <= t.len(),
        i <= run_nq_end(t, i) <= t.len(),
    decreases t.len() - i,
{
    if i < t.len() {
        lemma_run_bounds(t, i + 1);
    }
}

proof fn lemma_comma_tail_bounds(t: Seq<u8>, j: int)
    requires
        0 <= j <= t.len(),
    ensures
        match comma_tail(t, j) {
            Some(p) => j < p.0 <= t.len(),
            None => true,
        },
{
    let k = if 0 <= j < t.len() && t[j] == 34 {
        j + 1
    } else {
        j
    };
    if 0 <= k && k + 1 < t.len() && t[k] == 44 && t[k + 1] == 32 {
        let k2 = k + 2;
        let k3 = if lit_at(t, k2, line_lit()) && k2 + 5 < t.len() && is_digit(t[k2 + 5]) {
            k2 + 5
        } else {
            k2
        };
        lemma_run_bounds(t, k3);
    }
}

proof fn lemma_comma_back_bounds(t: Seq<u8>, i: int, j: int)
    requires
        0 <= i,
        j <= t.len(),
    ensures
        match comma_back(t, i, j) {
            Some(p) => i < p.0 <= j && p.0 < p.1 <= t.len(),
            None => true,
        },
    decreases j - i,
{
    if j > i {
        lemma_comma_tail_bounds(t, j);
        if comma_tail(t, j) is None {
            lemma_comma_back_bounds(t, i, j - 1);
        }
    }
}

proof fn lemma_pat_bounds(p: Pat, t: Seq<u8>, s: int)
    ensures
        match pat_at(p, t, s) {
            Some(g) => s <= g.start <= g.end <= t.len() && g.start == s,
            None => true,
        },
{
    match p {
        Pat::Comma => {
            if 0 <= s < t.len() {
                let i = if t[s] == 34 {
                    s + 1
                } else {
                    s
                };
                lemma_run_bounds(t, i);
                lemma_comma_back_bounds(t, i, run_c1_end(t, i));
            }
        },
        Pat::Colon => {
            if 0 <= s < t.len() && c2(t[s]) {
                lemma_run_bounds(t, s);
                let e = run_c2_end(t, s);
                if e < t.len() && t[e] == 58 {
                    lemma_run_bounds(t, e + 1);
                    let d = run_digit_end(t, e + 1);
                    if d > e + 1 && d + 1 < t.len() && t[d] == 58 && is_digit(t[d + 1]) {
                        lemma_run_bounds(t, d + 1);
                    }
                }
            }
        },
        Pat::FileLine => {
            if lit_at(t, s, file_lit()) {
                lemma_run_bounds(t, s + 6);
                let e = run_c2_end(t, s + 6);
                if e > s + 6 && lit_at(t, e, line2_lit()) {
                    lemma_run_bounds(t, e + 7);
                }
            }
        },
        Pat::TwoLine => {
            if lit_at(t, s, line_lit()) {
                lemma_run_bounds(t, s + 5);
                let d = run_digit_end(t, s + 5);
                if d > s + 5 && lit_at(t, d, infile_lit()) {
                    lemma_run_bounds(t, d + 8);
                    let w = run_ws_end(t, d + 8);
                    if has_nl(t, d + 8, w) && w < t.len() && t[w] == 39 {
                        lemma_run_bounds(t, w + 1);
                    }
                }
            }
        },
    }
}

proof fn lemma_find_bounds(p: Pat, t: Seq<u8>, s: int)
    ensures
        match find_from(p, t, s) {
            Some(g) => 0 <= g.start <= g.end <= t.len(),
            None => true,
        },
    decreases t.len() - s,
{
    if 0 <= s < t.len() {
        if pat_at(p, t, s) is Some {
            lemma_pat_bounds(p, t, s);
        } else {
            lemma_find_bounds(p, t, s + 1);
        }
    }
}

} // verus!
