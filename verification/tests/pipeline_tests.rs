use sourcemap_resolver::annotator;
use sourcemap_resolver::annotator::annotate;
use sourcemap_resolver::annotator::PendingAnnotation;
use sourcemap_resolver::extractor::extract_all;
use sourcemap_resolver::extractor::Extractor;
use sourcemap_resolver::resolver::join_relative;
use sourcemap_resolver::resolver::map_link_of;
use sourcemap_resolver::resolver::resolve_in_map;
use sourcemap_resolver::resolver::ResolveError;
use sourcemap_resolver::resolver::ResolveResult;

const VALID_MAP: &str = "{\"version\":3,\"sources\":[\"orig.sv\"],\"names\":[],\"mappings\":\";;;;;;;;;;;;;;;;;;;;;;AAIE\"}";

#[test]
fn single_line_reference() {
    let text = b"test.sv, 31".to_vec();
    let ret = extract_all(&text);
    assert_eq!(ret.len(), 1);
    let rec = ret[0].1.as_ref().unwrap();
    assert_eq!(rec.start, 0);
    assert_eq!(rec.end, 11);
    assert_eq!(rec.path, b"test.sv".to_vec());
    assert_eq!(rec.line, 31);
    assert_eq!(rec.column, None);

    // with no resolution, the output is the input line unchanged
    let out = annotate(&text, &Vec::new(), &b"^--".to_vec());
    assert_eq!(out, text);
}

#[test]
fn colon_reference_with_column() {
    let text = b"%Error: test.sv:23:1: syntax error, unexpected endmodule".to_vec();
    let ret = extract_all(&text);
    assert_eq!(ret.len(), 1);
    let rec = ret[0].1.as_ref().unwrap();
    assert_eq!(rec.path, b"test.sv".to_vec());
    assert_eq!(rec.line, 23);
    assert_eq!(rec.column, Some(1));
    assert_eq!(rec.start, 8);
    assert_eq!(rec.end, 20);
}

#[test]
fn two_line_reference_emitted_after_second_line() {
    let mut ex = Extractor::new();
    assert!(ex.push_line(b"in routine ModuleA line 10 in file".to_vec()).is_none());
    assert!(ex.push_line(b"\t'test.sv'.".to_vec()).is_none());
    let rest = ex.end();
    assert_eq!(rest.len(), 2);
    assert!(rest[0].1.is_none());
    let rec = rest[1].1.as_ref().unwrap();
    assert_eq!(rec.path, b"test.sv".to_vec());
    assert_eq!(rec.line, 10);
    assert_eq!(rec.column, None);
    // the span is clamped to the second line and covers the quoted path
    assert_eq!(rec.start, 0);
    assert_eq!(rec.end, 10);
}

#[test]
fn map_resolution_and_annotation() {
    let map = VALID_MAP.as_bytes().to_vec();
    let res = resolve_in_map(&map, 23, Some(1)).unwrap();
    assert_eq!(res.path, b"orig.sv".to_vec());
    assert_eq!(res.line, 5);
    assert_eq!(res.column, 3);

    let text = b"%Error: test.sv:23:1: syntax error, unexpected endmodule".to_vec();
    let ret = extract_all(&text);
    let rec = ret.into_iter().next().unwrap().1.unwrap();
    let out = annotator::write(&text, &Some(rec), &Some(res), &b"^--".to_vec());
    let expected = b"%Error: test.sv:23:1: syntax error, unexpected endmodule\n        ^-- orig.sv:5:3\n".to_vec();
    assert_eq!(out, expected);
}

#[test]
fn resolution_is_deterministic() {
    let map = VALID_MAP.as_bytes().to_vec();
    let a = resolve_in_map(&map, 23, Some(1)).unwrap();
    let b = resolve_in_map(&map, 23, Some(1)).unwrap();
    assert_eq!(a.path, b.path);
    assert_eq!(a.line, b.line);
    assert_eq!(a.column, b.column);
}

#[test]
fn malformed_map_fails_decoding() {
    let map = b"{ this is not a source map".to_vec();
    assert_eq!(resolve_in_map(&map, 1, None), Err(ResolveError::SourceMap));
}

#[test]
fn range_mapping_map_is_refused() {
    // the lookup in the map decoder is partial on range tokens, so such
    // maps are rejected whole rather than resolved
    let map = "{\"version\":3,\"sources\":[\"orig.sv\"],\"names\":[],\"mappings\":\"KAAA\",\"rangeMappings\":\"B\"}"
        .as_bytes()
        .to_vec();
    assert_eq!(resolve_in_map(&map, 2, None), Err(ResolveError::SourceMap));
    assert_eq!(resolve_in_map(&map, 1, Some(6)), Err(ResolveError::SourceMap));
}

#[test]
fn uncovered_position_has_no_token() {
    let map = VALID_MAP.as_bytes().to_vec();
    assert_eq!(resolve_in_map(&map, 1, None), Err(ResolveError::TokenNotFound));
}

#[test]
fn token_without_source_path() {
    let map = b"{\"version\":3,\"sources\":[],\"names\":[],\"mappings\":\"A\"}".to_vec();
    assert_eq!(resolve_in_map(&map, 1, None), Err(ResolveError::PathNotFound));
}

#[test]
fn map_link_extraction() {
    let src = b"module test;\nendmodule\n//# sourceMappingURL=test.sv.map\n".to_vec();
    assert_eq!(map_link_of(&src), Ok(b"test.sv.map".to_vec()));

    let src = b"module test;\nendmodule\n".to_vec();
    assert_eq!(map_link_of(&src), Err(ResolveError::MappingNotFound));

    let src = b"//# sourceMappingURL=a.map\nendmodule\n".to_vec();
    assert_eq!(map_link_of(&src), Err(ResolveError::MappingNotFound));

    let src = Vec::new();
    assert_eq!(map_link_of(&src), Err(ResolveError::MappingNotFound));
}

#[test]
fn relative_path_joining() {
    assert_eq!(
        join_relative(&b"/a/b/test.sv".to_vec(), &b"test.sv.map".to_vec()),
        b"/a/b/test.sv.map".to_vec()
    );
    assert_eq!(
        join_relative(&b"/a/b/test.sv".to_vec(), &b"/tmp/x.map".to_vec()),
        b"/tmp/x.map".to_vec()
    );
    assert_eq!(
        join_relative(&b"test.sv".to_vec(), &b"test.sv.map".to_vec()),
        b"test.sv.map".to_vec()
    );
}

#[test]
fn write_without_resolution_passes_line_through() {
    let text = b"test.sv, 31".to_vec();
    let ret = extract_all(&text);
    let rec = ret.into_iter().next().unwrap().1;
    assert!(rec.is_some());
    let out = annotator::write(&text, &rec, &None, &b"^--".to_vec());
    assert_eq!(out, b"test.sv, 31\n".to_vec());
}

#[test]
fn annotation_alignment_matches_column() {
    let text = b"%Error: test.sv:23:1: boom".to_vec();
    let res = ResolveResult { path: b"/x/orig.sv".to_vec(), line: 5, column: 3 };
    let ret = extract_all(&text);
    let rec = ret.into_iter().next().unwrap().1.unwrap();
    let start = rec.start;
    assert_eq!(start, 8);
    let out = annotator::write(&text, &Some(rec), &Some(res), &b"^--".to_vec());
    let lines: Vec<&[u8]> = out.split(|b| *b == b'\n').collect();
    let ann = lines[1];
    let leading = ann.iter().take_while(|b| **b == b' ').count();
    assert_eq!(leading, start);
    assert_eq!(&ann[leading..], b"^-- /x/orig.sv:5:3");
}

#[test]
fn annotate_merges_in_line_order() {
    let text = b"a.sv:1: x\nplain\nb.sv:2: y".to_vec();
    let anns = vec![
        PendingAnnotation {
            line_index: 0,
            col: 0,
            loc: ResolveResult { path: b"/o/a.sv".to_vec(), line: 10, column: 1 },
        },
        PendingAnnotation {
            line_index: 2,
            col: 0,
            loc: ResolveResult { path: b"/o/b.sv".to_vec(), line: 20, column: 2 },
        },
    ];
    let out = annotate(&text, &anns, &b"^--".to_vec());
    let expected =
        b"a.sv:1: x\n^-- /o/a.sv:10:1\nplain\nb.sv:2: y\n^-- /o/b.sv:20:2\n".to_vec();
    assert_eq!(out, expected);
}

#[test]
fn annotate_without_matches_is_identity() {
    let texts: Vec<Vec<u8>> = vec![
        Vec::new(),
        b"no references here\nat all\n".to_vec(),
        b"unterminated last line".to_vec(),
        b"\n\n".to_vec(),
    ];
    for text in texts {
        let out = annotate(&text, &Vec::new(), &b"^--".to_vec());
        assert_eq!(out, text);
    }
}

#[test]
fn whole_buffer_matches_incremental() {
    let src = "\nInferred memory devices in process\n\tin routine ModuleA line 10 in file\n\t\t'test.sv'.\n%Error: test.sv:23:1: boom\n";
    let whole = extract_all(&src.as_bytes().to_vec());

    let mut ex = Extractor::new();
    let mut inc = Vec::new();
    for line in src.lines() {
        if let Some(x) = ex.push_line(line.as_bytes().to_vec()) {
            inc.push(x);
        }
    }
    inc.append(&mut ex.end());

    assert_eq!(whole.len(), inc.len());
    for (w, i) in whole.iter().zip(inc.iter()) {
        assert_eq!(w.0, i.0);
        match (&w.1, &i.1) {
            (None, None) => {}
            (Some(a), Some(b)) => {
                assert_eq!(a.start, b.start);
                assert_eq!(a.end, b.end);
                assert_eq!(a.path, b.path);
                assert_eq!(a.line, b.line);
                assert_eq!(a.column, b.column);
            }
            _ => panic!("interfaces disagree"),
        }
    }
}

#[test]
fn large_line_numbers_render_exactly() {
    let text = b"x".to_vec();
    let res = ResolveResult { path: b"p".to_vec(), line: 4294967295, column: 99999 };
    let out = annotator::write(&text, &None, &None, &b"^--".to_vec());
    assert_eq!(out, b"x\n".to_vec());
    let rec = sourcemap_resolver::extractor::ExtractResult {
        start: 0,
        end: 1,
        path: b"p".to_vec(),
        line: 1,
        column: None,
    };
    let out = annotator::write(&text, &Some(rec), &Some(res), &b"^--".to_vec());
    assert_eq!(out, b"x\n^-- p:4294967295:99999\n".to_vec());
}
