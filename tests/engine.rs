use forge_flatten::flatten::{flatten, FlattenError};
use forge_flatten::graph::{GraphError, SourceTree};
use forge_flatten::merge::merge;
use forge_flatten::graph::build;
use forge_flatten::order::order;
use forge_flatten::path::{normalize_path, parent_dir};
use forge_flatten::resolve::{parse_remapping, pick_remapping, resolve, Config, Remapping, ResolutionError};
use forge_flatten::scan::{scan, split_bytes, trim_line, DirectiveKind};

fn b(s: &str) -> Vec<u8> {
    s.as_bytes().to_vec()
}

fn text(v: &[u8]) -> String {
    String::from_utf8(v.to_vec()).unwrap()
}

fn tree(files: &[(&str, &str)]) -> SourceTree {
    tree_missing(files, &[])
}

fn tree_missing(files: &[(&str, &str)], missing: &[&str]) -> SourceTree {
    SourceTree {
        paths: files.iter().map(|(p, _)| b(p)).collect(),
        texts: files.iter().map(|(_, t)| b(t)).collect(),
        missing: missing.iter().map(|p| b(p)).collect(),
    }
}

fn config() -> Config {
    Config { source_root: b("/p"), remappings: vec![], lib_paths: vec![] }
}

#[test]
fn order_puts_imports_first() {
    // 0 imports 1 and 2; 1 imports 3; 2 imports 3.
    let edges = vec![vec![1, 2], vec![3], vec![3], vec![]];
    let o = order(&edges, 0).unwrap();
    assert_eq!(o, vec![3, 1, 2, 0]);
}

#[test]
fn order_reports_two_file_cycle() {
    let edges = vec![vec![1], vec![0]];
    let c = order(&edges, 0).unwrap_err();
    assert_eq!(c, vec![0, 1, 0]);
}

#[test]
fn order_reports_self_import() {
    let edges = vec![vec![0]];
    assert_eq!(order(&edges, 0).unwrap_err(), vec![0, 0]);
}

#[test]
fn order_leaves_out_unreached_files() {
    let edges = vec![vec![2], vec![0], vec![]];
    assert_eq!(order(&edges, 0).unwrap(), vec![2, 0]);
}

#[test]
fn split_keeps_empty_lines_and_drops_final_newline() {
    let ls = split_bytes(&b("a\n\nb\n"), b'\n');
    assert_eq!(ls, vec![b("a"), b(""), b("b")]);
    assert_eq!(split_bytes(&b(""), b'\n'), Vec::<Vec<u8>>::new());
}

#[test]
fn trim_strips_blanks_on_both_sides() {
    assert_eq!(trim_line(&b(" \t pragma x; \r")), b("pragma x;"));
    assert_eq!(trim_line(&b("   ")), b(""));
}

#[test]
fn scan_recognises_each_kind() {
    let s = scan(&b("// SPDX-License-Identifier: MIT\n  pragma solidity ^0.8.0;\nimport {X, Y} from 'lib/Y.sol';\nimportance = 1;\npragmatic();\n"));
    assert_eq!(s.imports, vec![b("lib/Y.sol")]);
    assert_eq!(s.directives[0].text, b("// SPDX-License-Identifier: MIT"));
    assert_eq!(s.directives[1].kind, DirectiveKind::Pragma);
    assert_eq!(s.directives[1].text, b("pragma solidity ^0.8.0;"));
    assert_eq!(s.body, vec![b("importance = 1;"), b("pragmatic();")]);
}

#[test]
fn scan_follows_import_over_several_lines() {
    let s = scan(&b("import {\n  B\n} from \"./B.sol\";\ncontract A {}\n"));
    assert_eq!(s.imports, vec![b("./B.sol")]);
    assert_eq!(s.body, vec![b("contract A {}")]);
}

#[test]
fn scan_keeps_code_after_import_on_same_line() {
    let s = scan(&b("import \"./A.sol\"; import './C.sol'; contract X {}\n"));
    assert_eq!(s.imports, vec![b("./A.sol"), b("./C.sol")]);
    assert_eq!(s.body, vec![b("contract X {}")]);
}

#[test]
fn scan_closes_unterminated_import_at_end() {
    let s = scan(&b("import \"./A.sol\"\n"));
    assert_eq!(s.imports, vec![b("./A.sol")]);
    assert!(s.body.is_empty());
}

#[test]
fn scan_sorts_lines() {
    let s = scan(&b("// SPDX-License-Identifier: MIT\npragma solidity ^0.8.0;\nimport \"./B.sol\";\ncontract A {}\n"));
    assert_eq!(s.imports, vec![b("./B.sol")]);
    assert_eq!(s.directives.len(), 2);
    assert_eq!(s.directives[0].kind, DirectiveKind::License);
    assert_eq!(s.directives[0].text, b("// SPDX-License-Identifier: MIT"));
    assert_eq!(s.directives[1].kind, DirectiveKind::Pragma);
    assert_eq!(s.body, vec![b("contract A {}")]);
}

#[test]
fn normalize_works_out_dots() {
    assert_eq!(normalize_path(&b("/a/b/../c/./d.sol")), b("/a/c/d.sol"));
    assert_eq!(normalize_path(&b("/../x//y.sol")), b("/x/y.sol"));
    assert_eq!(parent_dir(&b("/a/b/c.sol")), b("/a/b"));
}

#[test]
fn longer_remapping_prefix_wins() {
    let rs = vec![
        Remapping { prefix: b("lib/"), target: b("/short/") },
        Remapping { prefix: b("lib/oz/"), target: b("/long/") },
        Remapping { prefix: b("lib/"), target: b("/later/") },
    ];
    assert_eq!(pick_remapping(&rs, &b("lib/oz/T.sol")), Some(1));
    assert_eq!(pick_remapping(&rs, &b("lib/x.sol")), Some(0));
    assert_eq!(pick_remapping(&rs, &b("src/x.sol")), None);
    let cfg = Config { source_root: b("/p"), remappings: rs, lib_paths: vec![] };
    let files = vec![b("/short/oz/T.sol"), b("/long/T.sol")];
    assert_eq!(resolve(&b("lib/oz/T.sol"), &b("/p/A.sol"), &cfg, &files, &vec![]), Ok(1));
}

#[test]
fn resolve_relative_and_library_paths() {
    let cfg = Config { source_root: b("/p"), remappings: vec![], lib_paths: vec![b("/l1"), b("/l2")] };
    let files = vec![b("/p/src/B.sol"), b("/l2/x/C.sol"), b("/l1/x/C.sol")];
    let none: Vec<Vec<u8>> = vec![];
    let missing = vec![b("/p/x/C.sol"), b("/p/src/Nope.sol")];
    assert_eq!(resolve(&b("../src/B.sol"), &b("/p/test/A.sol"), &cfg, &files, &none), Ok(0));
    assert_eq!(
        resolve(&b("x/C.sol"), &b("/p/src/B.sol"), &cfg, &files, &none),
        Err(ResolutionError::Unlisted(b("/p/x/C.sol")))
    );
    assert_eq!(resolve(&b("x/C.sol"), &b("/p/src/B.sol"), &cfg, &files, &missing), Ok(2));
    assert_eq!(resolve(&b("src/B.sol"), &b("/l1/x/C.sol"), &cfg, &files, &none), Ok(0));
    assert_eq!(
        resolve(&b("./Nope.sol"), &b("/p/src/B.sol"), &cfg, &files, &none),
        Err(ResolutionError::Unlisted(b("/p/src/Nope.sol")))
    );
    assert_eq!(resolve(&b("./Nope.sol"), &b("/p/src/B.sol"), &cfg, &files, &missing), Err(ResolutionError::NotFound));
}

#[test]
fn flatten_single_file() {
    let t = tree(&[("/p/A.sol", "// SPDX-License-Identifier: MIT\npragma solidity ^0.8.0;\ncontract A {}\n")]);
    let out = flatten(&t, &config(), 0).unwrap();
    assert_eq!(
        text(&out),
        "// SPDX-License-Identifier: MIT\npragma solidity ^0.8.0;\n// File: /p/A.sol\ncontract A {}\n"
    );
}

#[test]
fn flatten_diamond_emits_shared_file_once() {
    let t = tree(&[
        ("/p/A.sol", "import \"./B.sol\";\nimport \"./C.sol\";\ncontract A {}\n"),
        ("/p/B.sol", "import \"./D.sol\";\ncontract B {}\n"),
        ("/p/C.sol", "import './D.sol';\ncontract C {}\n"),
        ("/p/D.sol", "contract D {}\n"),
    ]);
    let out = text(&flatten(&t, &config(), 0).unwrap());
    assert_eq!(
        out,
        "// File: /p/D.sol\ncontract D {}\n// File: /p/B.sol\ncontract B {}\n// File: /p/C.sol\ncontract C {}\n// File: /p/A.sol\ncontract A {}\n"
    );
    assert_eq!(out.matches("contract D {}").count(), 1);
}

#[test]
fn flatten_follows_multi_line_import() {
    let t = tree(&[
        ("/p/A.sol", "import {\n  B\n} from \"./B.sol\"; contract A {}\n"),
        ("/p/B.sol", "contract B {}\n"),
    ]);
    let out = text(&flatten(&t, &config(), 0).unwrap());
    assert_eq!(out, "// File: /p/B.sol\ncontract B {}\n// File: /p/A.sol\ncontract A {}\n");
    assert!(!out.contains("import"));
}

#[test]
fn flatten_reports_cycle() {
    let t = tree(&[
        ("/p/A.sol", "import \"./B.sol\";\ncontract A {}\n"),
        ("/p/B.sol", "import \"./A.sol\";\ncontract B {}\n"),
    ]);
    match flatten(&t, &config(), 0) {
        Err(FlattenError::Cycle(c)) => assert_eq!(c, vec![b("/p/A.sol"), b("/p/B.sol"), b("/p/A.sol")]),
        other => panic!("expected a cycle, got {:?}", other),
    }
}

#[test]
fn flatten_keeps_each_license_once() {
    let t = tree(&[
        ("/p/A.sol", "// SPDX-License-Identifier: MIT\npragma solidity ^0.8.0;\nimport \"./B.sol\";\ncontract A {}\n"),
        ("/p/B.sol", "// SPDX-License-Identifier: MIT\npragma solidity ^0.8.0;\npragma abicoder v2;\ncontract B {}\n"),
    ]);
    let out = text(&flatten(&t, &config(), 0).unwrap());
    assert_eq!(
        out,
        "// SPDX-License-Identifier: MIT\npragma solidity ^0.8.0;\npragma abicoder v2;\n// File: /p/B.sol\ncontract B {}\n// File: /p/A.sol\ncontract A {}\n"
    );
    assert_eq!(out.matches("SPDX-License-Identifier").count(), 1);
}

#[test]
fn flatten_reports_missing_import() {
    let t = tree_missing(&[("/p/A.sol", "import \"./Missing.sol\";\ncontract A {}\n")], &["/p/Missing.sol"]);
    match flatten(&t, &config(), 0) {
        Err(FlattenError::Graph(GraphError::Resolution { file, specifier, error })) => {
            assert_eq!(file, b("/p/A.sol"));
            assert_eq!(specifier, b("./Missing.sol"));
            assert_eq!(error, ResolutionError::NotFound);
        }
        other => panic!("expected a resolution error, got {:?}", other),
    }
}

#[test]
fn flatten_is_deterministic() {
    let t = tree_missing(
        &[
            ("/p/A.sol", "pragma solidity ^0.8.0;\nimport \"lib/B.sol\";\nimport \"./C.sol\";\ncontract A {}\n"),
            ("/l/lib/B.sol", "pragma solidity ^0.8.0;\nimport \"/p/C.sol\";\ncontract B {}\n"),
            ("/p/C.sol", "contract C {}\n"),
        ],
        &["/p/lib/B.sol"],
    );
    let cfg = Config { source_root: b("/p"), remappings: vec![], lib_paths: vec![b("/l")] };
    let first = flatten(&t, &cfg, 0).unwrap();
    let second = flatten(&t, &cfg, 0).unwrap();
    assert_eq!(first, second);
    assert_eq!(
        text(&first),
        "pragma solidity ^0.8.0;\n// File: /p/C.sol\ncontract C {}\n// File: /l/lib/B.sol\ncontract B {}\n// File: /p/A.sol\ncontract A {}\n"
    );
}

#[test]
fn build_then_merge_by_hand() {
    let t = tree(&[
        ("/p/A.sol", "import \"./B.sol\";\na\n"),
        ("/p/B.sol", "b\n"),
    ]);
    let g = build(&t, &config(), 0).unwrap();
    assert_eq!(g.files, vec![0, 1]);
    assert_eq!(g.edges, vec![vec![1], vec![]]);
    let o = order(&g.edges, 0).unwrap();
    assert_eq!(text(&merge(&t, &g, &o)), "// File: /p/B.sol\nb\n// File: /p/A.sol\na\n");
}

#[test]
fn parse_remapping_splits_at_first_equals() {
    let m = parse_remapping(&b("ds-test/=lib/ds-test/src/")).unwrap();
    assert_eq!(m.prefix, b("ds-test/"));
    assert_eq!(m.target, b("lib/ds-test/src/"));
    let m = parse_remapping(&b("a=b=c")).unwrap();
    assert_eq!((m.prefix, m.target), (b("a"), b("b=c")));
    assert!(parse_remapping(&b("=x")).is_none());
    assert!(parse_remapping(&b("nothing")).is_none());
}

#[test]
fn order_breaks_ties_by_import_order() {
    // 0 imports 2 then 1; neither depends on the other.
    let edges = vec![vec![2, 1], vec![], vec![]];
    assert_eq!(order(&edges, 0).unwrap(), vec![2, 1, 0]);
}

#[test]
fn scan_accepts_license_comment_variants() {
    let s = scan(&b("//SPDX-License-Identifier: MIT\n/// SPDX-License-Identifier: MIT\n// SPDX is here\n"));
    assert_eq!(s.directives.len(), 2);
    assert_eq!(s.directives[0].text, b("//SPDX-License-Identifier: MIT"));
    assert_eq!(s.directives[1].text, b("/// SPDX-License-Identifier: MIT"));
    assert_eq!(s.body, vec![b("// SPDX is here")]);
}

#[test]
fn flatten_reports_first_missing_import() {
    let t = tree(&[
        ("/p/A.sol", "import \"./B.sol\";\nimport \"./Gone1.sol\";\ncontract A {}\n"),
        ("/p/B.sol", "import \"./Gone2.sol\";\ncontract B {}\n"),
    ]);
    match flatten(&t, &config(), 0) {
        Err(FlattenError::Graph(GraphError::Resolution { file, specifier, .. })) => {
            assert_eq!(file, b("/p/A.sol"));
            assert_eq!(specifier, b("./Gone1.sol"));
        }
        other => panic!("expected a resolution error, got {:?}", other),
    }
}

#[test]
fn scan_reads_import_after_pragma_on_same_line() {
    let s = scan(&b("pragma solidity ^0.8.0; import \"./B.sol\";\n"));
    assert_eq!(s.imports, vec![b("./B.sol")]);
    assert_eq!(s.directives.len(), 1);
    assert_eq!(s.directives[0].text, b("pragma solidity ^0.8.0;"));
    assert!(s.body.is_empty());
}

#[test]
fn scan_reads_directives_after_import_on_same_line() {
    let s = scan(&b("import \"./B.sol\"; pragma solidity ^0.8.0; contract A {}\nimport './C.sol'; // SPDX-License-Identifier: MIT\n"));
    assert_eq!(s.imports, vec![b("./B.sol"), b("./C.sol")]);
    assert_eq!(s.directives.len(), 2);
    assert_eq!(s.directives[0].kind, DirectiveKind::Pragma);
    assert_eq!(s.directives[0].text, b("pragma solidity ^0.8.0;"));
    assert_eq!(s.directives[1].kind, DirectiveKind::License);
    assert_eq!(s.directives[1].text, b("// SPDX-License-Identifier: MIT"));
    assert_eq!(s.body, vec![b("contract A {}")]);
}

#[test]
fn flatten_follows_import_after_pragma() {
    let t = tree(&[
        ("/p/A.sol", "pragma solidity ^0.8.0; import \"./B.sol\";\ncontract A {}\n"),
        ("/p/B.sol", "import \"./A2.sol\"; pragma solidity ^0.8.0;\ncontract B {}\n"),
        ("/p/A2.sol", "contract A2 {}\n"),
    ]);
    let out = text(&flatten(&t, &config(), 0).unwrap());
    assert_eq!(
        out,
        "pragma solidity ^0.8.0;\n// File: /p/A2.sol\ncontract A2 {}\n// File: /p/B.sol\ncontract B {}\n// File: /p/A.sol\ncontract A {}\n"
    );
    let missing = tree(&[("/p/A.sol", "pragma solidity ^0.8.0; import \"./B.sol\";\n")]);
    assert!(matches!(flatten(&missing, &config(), 0), Err(FlattenError::Graph(_))));
}

#[test]
fn flatten_asks_for_earlier_candidate_before_later_loaded_one() {
    // `x/C.sol` could be /p/x/C.sol or /l/x/C.sol; only the second is loaded,
    // so the first must be looked up before the import is settled.
    let cfg = Config { source_root: b("/p"), remappings: vec![], lib_paths: vec![b("/l")] };
    let t = tree(&[("/p/A.sol", "import \"x/C.sol\";\n"), ("/l/x/C.sol", "contract C {}\n")]);
    match flatten(&t, &cfg, 0) {
        Err(FlattenError::Graph(GraphError::Resolution { error, .. })) => {
            assert_eq!(error, ResolutionError::Unlisted(b("/p/x/C.sol")))
        }
        other => panic!("expected a lookup request, got {:?}", other),
    }
    let t = tree_missing(&[("/p/A.sol", "import \"x/C.sol\";\n"), ("/l/x/C.sol", "contract C {}\n")], &["/p/x/C.sol"]);
    assert_eq!(text(&flatten(&t, &cfg, 0).unwrap()), "// File: /l/x/C.sol\ncontract C {}\n// File: /p/A.sol\n");
}
