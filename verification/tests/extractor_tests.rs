use sourcemap_resolver::extractor::ExtractResult;
use sourcemap_resolver::extractor::Extractor;

fn extract(text: &str) -> Vec<(Vec<u8>, Option<ExtractResult>)> {
    let mut extractor = Extractor::new();
    let mut ret = Vec::new();
    for line in text.lines() {
        if let Some(x) = extractor.push_line(line.as_bytes().to_vec()) {
            ret.push(x);
        }
    }
    ret.append(&mut extractor.end());
    ret
}

#[test]
fn vcs() {
    let src = "\ntest.sv, 31\n";

    let ret = extract(src);
    assert_eq!(ret.len(), 2);
    assert_eq!(ret[1].0, b"test.sv, 31".to_vec());
    assert_eq!(ret[1].1.as_ref().unwrap().start, 0);
    assert_eq!(ret[1].1.as_ref().unwrap().end, 11);
    assert_eq!(ret[1].1.as_ref().unwrap().path, b"test.sv".to_vec());
    assert_eq!(ret[1].1.as_ref().unwrap().line, 31);
    assert_eq!(ret[1].1.as_ref().unwrap().column, None);

    let src = "\n\"test.sv\", 10: test1.unnamed$$_1: started at 0s failed at 0s\n";

    let ret = extract(src);
    assert_eq!(ret.len(), 2);
    assert_eq!(
        ret[1].0,
        b"\"test.sv\", 10: test1.unnamed$$_1: started at 0s failed at 0s".to_vec()
    );
    assert_eq!(ret[1].1.as_ref().unwrap().start, 0);
    assert_eq!(ret[1].1.as_ref().unwrap().end, 13);
    assert_eq!(ret[1].1.as_ref().unwrap().path, b"test.sv".to_vec());
    assert_eq!(ret[1].1.as_ref().unwrap().line, 10);
    assert_eq!(ret[1].1.as_ref().unwrap().column, None);

    let src = "\n$finish called from file \"test.sv\", line 12.\n";

    let ret = extract(src);
    assert_eq!(ret.len(), 2);
    assert_eq!(
        ret[1].0,
        b"$finish called from file \"test.sv\", line 12.".to_vec()
    );
    assert_eq!(ret[1].1.as_ref().unwrap().start, 25);
    assert_eq!(ret[1].1.as_ref().unwrap().end, 43);
    assert_eq!(ret[1].1.as_ref().unwrap().path, b"test.sv".to_vec());
    assert_eq!(ret[1].1.as_ref().unwrap().line, 12);
    assert_eq!(ret[1].1.as_ref().unwrap().column, None);
}

#[test]
fn vivado() {
    let src = "\nTime: 0 ps  Iteration: 0  Process: /test1/Initial7_0  Scope: test1  File: test.sv Line: 9\n";

    let ret = extract(src);
    assert_eq!(ret.len(), 2);
    assert_eq!(
        ret[1].0,
        b"Time: 0 ps  Iteration: 0  Process: /test1/Initial7_0  Scope: test1  File: test.sv Line: 9".to_vec()
    );
    assert_eq!(ret[1].1.as_ref().unwrap().start, 68);
    assert_eq!(ret[1].1.as_ref().unwrap().end, 89);
    assert_eq!(ret[1].1.as_ref().unwrap().path, b"test.sv".to_vec());
    assert_eq!(ret[1].1.as_ref().unwrap().line, 9);
    assert_eq!(ret[1].1.as_ref().unwrap().column, None);

    let src = "\nERROR: [VRFC 10-4982] syntax error near 'endmodule' [test.sv:23]\n";

    let ret = extract(src);
    assert_eq!(ret.len(), 2);
    assert_eq!(
        ret[1].0,
        b"ERROR: [VRFC 10-4982] syntax error near 'endmodule' [test.sv:23]".to_vec()
    );
    assert_eq!(ret[1].1.as_ref().unwrap().start, 53);
    assert_eq!(ret[1].1.as_ref().unwrap().end, 63);
    assert_eq!(ret[1].1.as_ref().unwrap().path, b"test.sv".to_vec());
    assert_eq!(ret[1].1.as_ref().unwrap().line, 23);
    assert_eq!(ret[1].1.as_ref().unwrap().column, None);
}

#[test]
fn verilator() {
    let src = "\n%Error: test.sv:11: Verilog $stop\n";

    let ret = extract(src);
    assert_eq!(ret.len(), 2);
    assert_eq!(ret[1].0, b"%Error: test.sv:11: Verilog $stop".to_vec());
    assert_eq!(ret[1].1.as_ref().unwrap().start, 8);
    assert_eq!(ret[1].1.as_ref().unwrap().end, 18);
    assert_eq!(ret[1].1.as_ref().unwrap().path, b"test.sv".to_vec());
    assert_eq!(ret[1].1.as_ref().unwrap().line, 11);
    assert_eq!(ret[1].1.as_ref().unwrap().column, None);

    let src = "\n%Error: test.sv:23:1: syntax error, unexpected endmodule\n";

    let ret = extract(src);
    assert_eq!(ret.len(), 2);
    assert_eq!(
        ret[1].0,
        b"%Error: test.sv:23:1: syntax error, unexpected endmodule".to_vec()
    );
    assert_eq!(ret[1].1.as_ref().unwrap().start, 8);
    assert_eq!(ret[1].1.as_ref().unwrap().end, 20);
    assert_eq!(ret[1].1.as_ref().unwrap().path, b"test.sv".to_vec());
    assert_eq!(ret[1].1.as_ref().unwrap().line, 23);
    assert_eq!(ret[1].1.as_ref().unwrap().column, Some(1));
}

#[test]
fn design_compiler() {
    let src = "\nInferred memory devices in process\n\tin routine ModuleA line 10 in file\n\t\t'test.sv'.\n";

    let ret = extract(src);
    assert_eq!(ret.len(), 4);
    assert_eq!(ret[3].0, b"\t\t'test.sv'.".to_vec());
    assert_eq!(ret[3].1.as_ref().unwrap().start, 0);
    assert_eq!(ret[3].1.as_ref().unwrap().end, 11);
    assert_eq!(ret[3].1.as_ref().unwrap().path, b"test.sv".to_vec());
    assert_eq!(ret[3].1.as_ref().unwrap().line, 10);
    assert_eq!(ret[3].1.as_ref().unwrap().column, None);

    let src = "\nWarning:  test.sv:67: DEFAULT branch of CASE statement cannot be reached. (ELAB-311)\n";

    let ret = extract(src);
    assert_eq!(ret.len(), 2);
    assert_eq!(
        ret[1].0,
        b"Warning:  test.sv:67: DEFAULT branch of CASE statement cannot be reached. (ELAB-311)".to_vec()
    );
    assert_eq!(ret[1].1.as_ref().unwrap().start, 10);
    assert_eq!(ret[1].1.as_ref().unwrap().end, 20);
    assert_eq!(ret[1].1.as_ref().unwrap().path, b"test.sv".to_vec());
    assert_eq!(ret[1].1.as_ref().unwrap().line, 67);
    assert_eq!(ret[1].1.as_ref().unwrap().column, None);
}

#[test]
fn formality() {
    let src = "\nWarning: INITIAL statements are not supported. (File: test.sv Line: 22)  (FMR_VLOG-101)\n";

    let ret = extract(src);
    assert_eq!(ret.len(), 2);
    assert_eq!(
        ret[1].0,
        b"Warning: INITIAL statements are not supported. (File: test.sv Line: 22)  (FMR_VLOG-101)".to_vec()
    );
    assert_eq!(ret[1].1.as_ref().unwrap().start, 48);
    assert_eq!(ret[1].1.as_ref().unwrap().end, 70);
    assert_eq!(ret[1].1.as_ref().unwrap().path, b"test.sv".to_vec());
    assert_eq!(ret[1].1.as_ref().unwrap().line, 22);
    assert_eq!(ret[1].1.as_ref().unwrap().column, None);
}
