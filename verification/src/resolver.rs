//! Single-hop source-map resolution.
//!
//! A referenced file carries a source-map link when its last line starts with
//! the literal marker `//# sourceMappingURL=`. The map file named there turns
//! a 1-indexed line/column of the generated file into the originating file,
//! line and column. Reading files from disk is the caller's concern; this
//! module works on the bytes the caller read.

use vstd::prelude::*;

use crate::scan::lit_at;

verus! {

/// A successfully resolved location: the originating path as the map names
/// it, and 1-indexed line and column numbers.
#[derive(Debug, PartialEq, Eq)]
pub struct ResolveResult {
    pub path: Vec<u8>,
    pub line: u32,
    pub column: u32,
}

/// Why a reference could not be resolved.
#[derive(Clone, Copy, Debug, PartialEq, Eq, Structural)]
pub enum ResolveError {
    /// A file could not be read or a resolved path could not be
    /// canonicalized; produced by the caller doing the reads.
    IO,
    /// The map content could not be decoded, it uses range mappings (which
    /// this library does not support), or a decoded number leaves the range
    /// of the record fields.
    SourceMap,
    /// The referenced file has no trailing source-map link line.
    MappingNotFound,
    /// No mapping entry covers the requested position.
    TokenNotFound,
    /// The covering entry names no originating source.
    PathNotFound,
}

// ---------------------------------------------------------------------------
// The trailing link marker
// ---------------------------------------------------------------------------

/// The bytes of `//# sourceMappingURL=`.
pub open spec fn marker() -> Seq<u8> {
    seq![
        47u8, 47u8, 35u8, 32u8, 115u8, 111u8, 117u8, 114u8, 99u8, 101u8, 77u8, 97u8, 112u8, 112u8,
        105u8, 110u8, 103u8, 85u8, 82u8, 76u8, 61u8,
    ]
}

fn exec_marker() -> (v: Vec<u8>)
    ensures
        v@ == marker(),
{
    let mut v: Vec<u8> = Vec::new();
    v.push(47);
    v.push(47);
    v.push(35);
    v.push(32);
    v.push(115);
    v.push(111);
    v.push(117);
    v.push(114);
    v.push(99);
    v.push(101);
    v.push(77);
    v.push(97);
    v.push(112);
    v.push(112);
    v.push(105);
    v.push(110);
    v.push(103);
    v.push(85);
    v.push(82);
    v.push(76);
    v.push(61);
    proof {
        assert(v@ =~= marker());
    }
    v
}

/// Offset where the line ending at `e` starts: right after the previous line
/// separator, or at the start of the text.
pub open spec fn line_start_before(t: Seq<u8>, e: int) -> int
    decreases e,
{
    if e <= 0 {
        0
    } else if t[e - 1] == 10 {
        e
    } else {
        line_start_before(t, e - 1)
    }
}

/// The relative map path on the trailing link line, if the text's last line
/// starts with the marker. A final line separator, and a carriage return
/// before it, do not count as part of the last line.
pub open spec fn map_link_spec(t: Seq<u8>) -> Option<Seq<u8>> {
    let e: int = if t.len() > 0 && t[t.len() - 1] == 10 {
        t.len() - 1
    } else {
        t.len() as int
    };
    let s = line_start_before(t, e);
    let e2: int = if e > s && t[e - 1] == 13 {
        e - 1
    } else {
        e
    };
    if e2 - s >= 21 && t.subrange(s, s + 21) == marker() {
        Some(t.subrange(s + 21, e2))
    } else {
        None
    }
}

/// Extract the relative path of the source map named by the trailing link
/// line of the given file content; `MappingNotFound` when the content is
/// empty or its last line does not start with the marker.
pub fn map_link_of(src: &Vec<u8>) -> (r: Result<Vec<u8>, ResolveError>)
    ensures
        match (r, map_link_spec(src@)) {
            (Ok(v), Some(p)) => v@ == p,
            (Err(e), None) => e == ResolveError::MappingNotFound,
            _ => false,
        },
{
    let mut e = src.len();
    if e > 0 && src[e - 1] == 10 {
        e = e - 1;
    }
    let mut s = e;
    while s > 0 && src[s - 1] != 10
        invariant
            0 <= s <= e <= src.len(),
            line_start_before(src@, e as int) == line_start_before(src@, s as int),
        decreases s,
    {
        s = s - 1;
    }
    let mut e2 = e;
    if e > s && src[e - 1] == 13 {
        e2 = e - 1;
    }
    let mk = exec_marker();
    if e2 - s >= 21 && crate::scan::exec_lit_at(src, s, &mk) {
        Ok(crate::scan::copy_range(src, s + 21, e2))
    } else {
        proof {
            if e2 - s >= 21 && src@.subrange(s as int, s + 21) == marker() {
                assert(lit_at(src@, s as int, marker()));
            }
        }
        Err(ResolveError::MappingNotFound)
    }
}

// ---------------------------------------------------------------------------
// Relative path joining
// ---------------------------------------------------------------------------

/// Offset right after the last `/` of the text up to `e`, or 0.
pub open spec fn dir_end(t: Seq<u8>, e: int) -> int
    decreases e,
{
    if e <= 0 {
        0
    } else if t[e - 1] == 47 {
        e
    } else {
        dir_end(t, e - 1)
    }
}

/// A relative path interpreted against the directory holding `base`: an
/// absolute path stands alone, anything else is appended to `base`'s
/// directory prefix (up to and including its last separator).
pub open spec fn join_spec(base: Seq<u8>, rel: Seq<u8>) -> Seq<u8> {
    if rel.len() > 0 && rel[0] == 47 {
        rel
    } else {
        base.subrange(0, dir_end(base, base.len() as int)) + rel
    }
}

pub fn join_relative(base: &Vec<u8>, rel: &Vec<u8>) -> (r: Vec<u8>)
    ensures
        r@ == join_spec(base@, rel@),
{
    if rel.len() > 0 && rel[0] == 47 {
        return crate::scan::copy_range(rel, 0, rel.len());
    }
    let mut s = base.len();
    while s > 0 && base[s - 1] != 47
        invariant
            0 <= s <= base.len(),
            dir_end(base@, base@.len() as int) == dir_end(base@, s as int),
        decreases s,
    {
        s = s - 1;
    }
    let mut r = crate::scan::copy_range(base, 0, s);
    let mut k: usize = 0;
    while k < rel.len()
        invariant
            k <= rel.len(),
            r@ == base@.subrange(0, dir_end(base@, base@.len() as int)) + rel@.subrange(
                0,
                k as int,
            ),
        decreases rel.len() - k,
    {
        r.push(rel[k]);
        proof {
            assert((base@.subrange(0, dir_end(base@, base@.len() as int)) + rel@.subrange(
                0,
                k as int,
            )).push(rel@[k as int]) =~= base@.subrange(0, dir_end(base@, base@.len() as int))
                + rel@.subrange(0, k + 1));
        }
        k = k + 1;
    }
    proof {
        assert(rel@.subrange(0, rel@.len() as int) =~= rel@);
        assert(base@.subrange(0, dir_end(base@, base@.len() as int)) + rel@.subrange(0, 0)
            =~= base@.subrange(0, dir_end(base@, base@.len() as int)));
    }
    r
}

// ---------------------------------------------------------------------------
// Token lookup through the source-map decoder
// ---------------------------------------------------------------------------

/// Outcome of decoding a map and looking up one position in it.
pub enum RawLookup {
    /// The bytes are not a decodable source map, or the map carries range
    /// tokens, which this library does not support.
    BadMap,
    /// No mapping entry covers the position.
    NoToken,
    /// The covering entry: its originating source path if it names one, and
    /// its 0-indexed originating line and column.
    Token { path: Option<Vec<u8>>, line: u32, col: u32 },
}

/// What decoding the given map bytes and looking up the given 0-indexed
/// position yields. Decoding and lookup are functions of the bytes and the
/// position alone.
pub uninterp spec fn lookup_of(map: Seq<u8>, line: u32, col: u32) -> RawLookup;

/// Relies on sourcemap::SourceMap::from_reader, SourceMap::tokens,
/// Token::is_range, SourceMap::lookup_token and Token's get_source /
/// get_src_line / get_src_col: decoding a source map and looking up the
/// closest token covering a 0-indexed position depend on the map bytes and
/// the position alone. A map carrying range tokens is refused as
/// undecodable: on such maps the crate's lookup is partial (it subtracts
/// column offsets that a query between tokens can underflow), so refusing
/// them up front keeps this call total on every decodable input.
#[verifier::external_body]
fn map_lookup(map: &Vec<u8>, line: u32, col: u32) -> (r: RawLookup)
    ensures
        r == lookup_of(map@, line, col),
{
    let sm = match sourcemap::SourceMap::from_reader(map.as_slice()) {
        Ok(sm) => sm,
        Err(_) => return RawLookup::BadMap,
    };
    if sm.tokens().any(|t| t.is_range()) {
        return RawLookup::BadMap;
    }
    match sm.lookup_token(line, col) {
        None => RawLookup::NoToken,
        Some(tok) => RawLookup::Token {
            path: tok.get_source().map(|s| s.as_bytes().to_vec()),
            line: tok.get_src_line(),
            col: tok.get_src_col(),
        },
    }
}

/// How a resolution result must relate to the map bytes and the queried
/// 1-indexed position. An absent column defaults to column 1. The looked-up
/// 0-indexed values come back converted to 1-indexed; a value at the very
/// top of the field's range cannot be converted and is reported as a
/// `SourceMap` error.
pub open spec fn resolve_rel(
    map: Seq<u8>,
    line: u32,
    column: Option<u32>,
    r: Result<ResolveResult, ResolveError>,
) -> bool
    recommends
        line >= 1,
{
    let l0 = (line - 1) as u32;
    let c0 = ((match column {
        Some(c) => c,
        None => 1u32,
    }) - 1) as u32;
    match lookup_of(map, l0, c0) {
        RawLookup::BadMap => r == Err::<ResolveResult, ResolveError>(ResolveError::SourceMap),
        RawLookup::NoToken => r == Err::<ResolveResult, ResolveError>(ResolveError::TokenNotFound),
        RawLookup::Token { path, line: sl, col: sc } => match path {
            None => r == Err::<ResolveResult, ResolveError>(ResolveError::PathNotFound),
            Some(p) => if sl < 0xffff_ffffu32 && sc < 0xffff_ffffu32 {
                match r {
                    Ok(res) => res.path@ == p@ && res.line == sl + 1 && res.column == sc + 1,
                    Err(_) => false,
                }
            } else {
                r == Err::<ResolveResult, ResolveError>(ResolveError::SourceMap)
            },
        },
    }
}

/// Resolve a 1-indexed position through the given map bytes.
pub fn resolve_in_map(map: &Vec<u8>, line: u32, column: Option<u32>) -> (r: Result<
    ResolveResult,
    ResolveError,
>)
    requires
        line >= 1,
        (match column {
            Some(c) => c >= 1,
            None => true,
        }),
    ensures
        resolve_rel(map@, line, column, r),
{
    let l0 = line - 1;
    let c0 = match column {
        Some(c) => c - 1,
        None => 0,
    };
    match map_lookup(map, l0, c0) {
        RawLookup::BadMap => Err(ResolveError::SourceMap),
        RawLookup::NoToken => Err(ResolveError::TokenNotFound),
        RawLookup::Token { path, line: sl, col: sc } => match path {
            None => Err(ResolveError::PathNotFound),
            Some(p) => if sl < 0xffff_ffff && sc < 0xffff_ffff {
                Ok(ResolveResult { path: p, line: sl + 1, column: sc + 1 })
            } else {
                Err(ResolveError::SourceMap)
            },
        },
    }
}

/// Resolution is deterministic: any two results related to the same map
/// bytes and the same queried position agree.
pub proof fn lemma_resolution_deterministic(
    map: Seq<u8>,
    line: u32,
    column: Option<u32>,
    r1: Result<ResolveResult, ResolveError>,
    r2: Result<ResolveResult, ResolveError>,
)
    requires
        resolve_rel(map, line, column, r1),
        resolve_rel(map, line, column, r2),
    ensures
        match (r1, r2) {
            (Ok(a), Ok(b)) => a.path@ == b.path@ && a.line == b.line && a.column == b.column,
            (Err(a), Err(b)) => a == b,
            _ => false,
        },
{
}

} // verus!
