use inliner::chars::{join_path, parent_dir, split_lines, str_eq, trim_end};
use inliner::error::{Error, ErrorKind};
use inliner::scan::{classify, parse_inc, Directive, IncParse};
use inliner::cache::Cache;
use inliner::hook::{Hook, ListHook, MemHook};
use inliner::source::Source;
use inliner::{Gate, GateStack, Mem, Parser};

fn inc(name: &str) -> String {
    format!("#inclu{}e <{}>", "d", name)
}

fn inc_quoted(name: &str) -> String {
    format!("#inclu{}e \"{}\"", "d", name)
}

#[test]
fn trims_trailing_whitespace_per_line() {
    let main = "alpha   \nbeta\t\n\ngamma\n";
    let hook = Mem::builder()
        .add_file("main.c", main.to_string())
        .unwrap()
        .build();
    let mut parser = Parser::builder().add_source(hook).build();
    let node = parser.parse("main.c").unwrap();
    assert_eq!(node.collect().0, "alpha\nbeta\n\ngamma\n");
}

#[test]
fn root_not_found() {
    let hook = Mem::builder().build();
    let mut parser = Parser::builder().add_source(hook).build();
    let err = parser.parse("absent.c").unwrap_err();
    assert!(matches!(err.kind(), ErrorKind::NotFound));
}

#[test]
fn nested_file_not_found_with_trace() {
    let main = format!("top\n{}\n", inc("gone.h"));
    let hook = Mem::builder().add_file("main.c", main).unwrap().build();
    let mut parser = Parser::builder().add_source(hook).build();
    let err = parser.parse("main.c").unwrap_err();
    assert!(matches!(err.kind(), ErrorKind::NotFound));
    // Wrapped once: in main.c, at the zero-based line 1.
    assert_eq!(err.trace().len(), 1);
    assert_eq!(err.trace()[0].0, "main.c");
    assert_eq!(err.trace()[0].1, 1);
}

#[test]
fn duplicate_registration_rejected() {
    let mut mem = Mem::new();
    assert!(mem.add_file("a.h", "one\n".to_string()).is_ok());
    let err = mem.add_file("a.h", "two\n".to_string()).unwrap_err();
    assert!(matches!(err.kind(), ErrorKind::AlreadyExists));
}

#[test]
fn mismatched_delimiters_fail() {
    let main = format!("#inclu{}e <oops.h\"\n", "d");
    let hook = Mem::builder()
        .add_file("main.c", main)
        .unwrap()
        .add_file("oops.h", "x\n".to_string())
        .unwrap()
        .build();
    let mut parser = Parser::builder().add_source(hook).build();
    let err = parser.parse("main.c").unwrap_err();
    assert!(matches!(err.kind(), ErrorKind::InvalidData));
}

#[test]
fn recursion_reported_as_such() {
    let first = format!("{}\n", inc("second.h"));
    let second = format!("{}\n", inc("first.h"));
    let hook = Mem::builder()
        .add_file("first.h", first)
        .unwrap()
        .add_file("second.h", second)
        .unwrap()
        .build();
    let mut parser = Parser::builder().add_source(hook).build();
    let err = parser.parse("first.h").unwrap_err();
    assert!(matches!(err.kind(), ErrorKind::RecursionDetected));
}

#[test]
fn unbalanced_else_fails() {
    let main = format!("{}\n#else\n", inc("h0.h"));
    let hook = Mem::builder()
        .add_file("main.c", main)
        .unwrap()
        .add_file("h0.h", "content\n".to_string())
        .unwrap()
        .build();
    let mut parser = Parser::builder().add_source(hook).build();
    let err = parser.parse("main.c").unwrap_err();
    assert!(matches!(err.kind(), ErrorKind::UnbalancedDirective));
}

#[test]
fn unbalanced_endif_fails() {
    let hook = Mem::builder()
        .add_file("main.c", "#endif\n".to_string())
        .unwrap()
        .build();
    let mut parser = Parser::builder().add_source(hook).build();
    let err = parser.parse("main.c").unwrap_err();
    assert!(matches!(err.kind(), ErrorKind::UnbalancedDirective));
}

#[test]
fn duplicate_else_fails() {
    let input = "#ifdef ABC\n#else\n#else\n#endif\n";
    let hook = Mem::builder()
        .add_file("main.c", input.to_string())
        .unwrap()
        .build();
    let mut parser = Parser::builder()
        .add_source(hook)
        .add_flag(String::from("ABC"), true)
        .build();
    let err = parser.parse("main.c").unwrap_err();
    assert!(matches!(err.kind(), ErrorKind::UnbalancedDirective));
}

struct FailingSource;

impl Source for FailingSource {
    fn read_model(
        &self,
        _path: vstd::seq::Seq<char>,
        _dir: Option<vstd::seq::Seq<char>>,
    ) -> inliner::source::ReadOutcome {
        inliner::source::ReadOutcome::Absent
    }

    fn read(&self, _path: &str, _dir: Option<&str>) -> Result<(String, String), Error> {
        Err(Error::new(ErrorKind::Io))
    }
}

#[test]
fn source_failure_passes_through() {
    let mut parser = Parser::builder().add_source(FailingSource).build();
    let err = parser.parse("main.c").unwrap_err();
    assert!(matches!(err.kind(), ErrorKind::Io));
}

#[test]
fn closed_known_gate_never_resolves() {
    // The guarded file does not even exist; a closed gate must not try it.
    let main = format!("#ifdef ABC\n{}\n#endif\nend\n", inc("absent.h"));
    let hook = Mem::builder().add_file("main.c", main).unwrap().build();
    let mut parser = Parser::builder()
        .add_source(hook)
        .add_flag(String::from("ABC"), false)
        .build();
    let node = parser.parse("main.c").unwrap();
    assert_eq!(node.collect().0, "\n\n\nend\n");
}

#[test]
fn unknown_gate_still_resolves() {
    // Same shape, but the flag is unknown: the inclusion is taken, and
    // the missing file turns into an error.
    let main = format!("#ifdef XYZ\n{}\n#endif\nend\n", inc("absent.h"));
    let hook = Mem::builder().add_file("main.c", main).unwrap().build();
    let mut parser = Parser::builder().add_source(hook).build();
    let err = parser.parse("main.c").unwrap_err();
    assert!(matches!(err.kind(), ErrorKind::NotFound));
}

#[test]
fn quoted_inclusion_uses_parent_directory() {
    let main = format!("{}\n", inc("sub/a.h"));
    let a = format!("{}\nA\n", inc_quoted("b.h"));
    let b = "B\n";
    let hook = Mem::builder()
        .add_file("main.c", main)
        .unwrap()
        .add_file("sub/a.h", a)
        .unwrap()
        .add_file("sub/b.h", b.to_string())
        .unwrap()
        .build();
    let mut parser = Parser::builder().add_source(hook).build();
    let node = parser.parse("main.c").unwrap();
    assert_eq!(node.collect().0, "\n\nB\nA\n");
}

#[test]
fn fallback_chain_first_hit_wins() {
    let one = Mem::builder()
        .add_file("main.c", "from one\n".to_string())
        .unwrap()
        .build();
    let two = Mem::builder()
        .add_file("main.c", "from two\n".to_string())
        .unwrap()
        .add_file("only.h", "only in two\n".to_string())
        .unwrap()
        .build();
    let mut parser = Parser::builder().add_source(one).add_source(two).build();
    let node = parser.parse("main.c").unwrap();
    assert_eq!(node.collect().0, "from one\n");
    let node2 = parser.parse("only.h").unwrap();
    assert_eq!(node2.collect().0, "only in two\n");
}

#[test]
fn occurrence_cache_lives_across_parses() {
    // The same parser keeps its occurrence cache, so a once-guarded root
    // is discarded on a second parse and reported as not found.
    let hook = Mem::builder()
        .add_file("main.c", "#pragma once\ntext\n".to_string())
        .unwrap()
        .build();
    let mut parser = Parser::builder().add_source(hook).build();
    let node = parser.parse("main.c").unwrap();
    assert_eq!(node.collect().0, "\ntext\n");
    let err = parser.parse("main.c").unwrap_err();
    assert!(matches!(err.kind(), ErrorKind::NotFound));
}

#[test]
fn index_search_out_of_range() {
    let hook = Mem::builder()
        .add_file("main.c", "a\nb\n".to_string())
        .unwrap()
        .build();
    let mut parser = Parser::builder().add_source(hook).build();
    let node = parser.parse("main.c").unwrap();
    let (text, index) = node.collect();
    assert_eq!(text, "a\nb\n");
    assert_eq!(index.search(0), Some(("main.c".to_string(), 0)));
    assert_eq!(index.search(1), Some(("main.c".to_string(), 1)));
    assert_eq!(index.search(2), None);
}

#[test]
fn node_reports_name_and_lines() {
    let hook = Mem::builder()
        .add_file("main.c", "a\nb\nc\n".to_string())
        .unwrap()
        .build();
    let mut parser = Parser::builder().add_source(hook).build();
    let node = parser.parse("main.c").unwrap();
    assert_eq!(node.name(), "main.c");
    assert_eq!(node.lines_count(), 3);
}

#[test]
fn gate_stack_walkthrough() {
    let mut gs = GateStack::new();
    assert!(gs.is_open());
    gs.push(Gate::Known(String::from("A"), true));
    assert!(gs.is_open());
    gs.push(Gate::Unknown);
    assert!(gs.is_open());
    gs.push(Gate::Known(String::from("B"), false));
    assert!(!gs.is_open());
    // Flip the closed gate: the stack opens again.
    assert_eq!(gs.invert_last(), Ok(true));
    assert!(gs.is_open());
    // A second flip of the same gate is refused.
    assert_eq!(gs.invert_last(), Err(()));
    // Popping the known gate leaves the undecided one, which counts open.
    assert!(matches!(gs.pop(), Some(Gate::Known(_, _))));
    assert_eq!(gs.invert_last(), Ok(false));
    assert!(gs.is_open());
    assert!(matches!(gs.pop(), Some(Gate::Unknown)));
    assert!(matches!(gs.pop(), Some(Gate::Known(_, _))));
    assert!(gs.pop().is_none());
    assert!(gs.is_open());
}

#[test]
fn gate_is_open_by_kind() {
    assert!(Gate::Known(String::from("X"), true).is_open());
    assert!(!Gate::Known(String::from("X"), false).is_open());
    assert!(Gate::Unknown.is_open());
}

#[test]
fn classify_recognizes_directives() {
    assert!(matches!(classify("  #pragma once // note"), Directive::PragmaOnce));
    assert!(matches!(classify("#pragma"), Directive::Plain));
    match classify("#ifdef ABC") {
        Directive::IfDef { negated, name } => {
            assert!(!negated);
            assert_eq!(name, "ABC");
        },
        _ => panic!("not an #ifdef"),
    }
    match classify("#ifndef DEF") {
        Directive::IfDef { negated, name } => {
            assert!(negated);
            assert_eq!(name, "DEF");
        },
        _ => panic!("not an #ifndef"),
    }
    assert!(matches!(classify("#if defined(ABC)"), Directive::IfRaw));
    assert!(matches!(classify("#ifx"), Directive::Plain));
    assert!(matches!(classify("#else // tail"), Directive::Else));
    assert!(matches!(classify("#endif tail"), Directive::Endif));
    assert!(matches!(classify("plain text"), Directive::Plain));
    assert!(matches!(classify(""), Directive::Plain));
}

#[test]
fn parse_inc_forms() {
    match parse_inc(&inc("foo/bar.h")) {
        IncParse::Angle(p) => assert_eq!(p, "foo/bar.h"),
        _ => panic!("not an angle form"),
    }
    match parse_inc(&inc_quoted("baz.h")) {
        IncParse::Quoted(p) => assert_eq!(p, "baz.h"),
        _ => panic!("not a quoted form"),
    }
    assert!(matches!(parse_inc(&format!("#inclu{}e <x\"", "d")), IncParse::Mismatched));
    assert!(matches!(parse_inc("just text"), IncParse::NotInc));
    assert!(matches!(parse_inc(&format!("#inclu{}e x", "d")), IncParse::NotInc));
}

#[test]
fn string_helpers() {
    assert!(str_eq("abc", "abc"));
    assert!(!str_eq("abc", "abd"));
    assert!(!str_eq("abc", "ab"));
    assert_eq!(trim_end("a b  \t "), "a b");
    assert_eq!(trim_end(""), "");
    assert_eq!(split_lines("a\nb"), vec!["a".to_string(), "b".to_string()]);
    assert_eq!(split_lines("a\r\nb\n"), vec!["a".to_string(), "b".to_string()]);
    assert_eq!(split_lines(""), Vec::<String>::new());
    assert_eq!(split_lines("\n"), vec!["".to_string()]);
    assert_eq!(join_path("a/b", "c.h"), "a/b/c.h");
    assert_eq!(join_path("a/", "c.h"), "a/c.h");
    assert_eq!(join_path("", "c.h"), "c.h");
    assert_eq!(join_path("a", "/abs.h"), "/abs.h");
    assert_eq!(parent_dir("a/b/c.h"), Some("a/b".to_string()));
    assert_eq!(parent_dir("c.h"), Some("".to_string()));
    assert_eq!(parent_dir("/c.h"), Some("/".to_string()));
    assert_eq!(parent_dir(""), None);
    assert_eq!(parent_dir("/"), None);
}

#[test]
fn cache_counts_and_rejects_duplicates() {
    let mut cache = Cache::new();
    assert!(cache.put("a.h", "text\n".to_string()).is_ok());
    let err = cache.put("a.h", "other\n".to_string()).unwrap_err();
    assert!(matches!(err.kind(), ErrorKind::AlreadyExists));
    {
        let e = cache.get("a.h").unwrap();
        assert_eq!(e.text, "text\n");
        assert_eq!(e.occured, 1);
    }
    {
        let e = cache.get_mut("a.h").unwrap();
        e.occured += 1;
    }
    assert_eq!(cache.get("a.h").unwrap().occured, 2);
    assert!(cache.get("b.h").is_none());
    assert!(cache.get_mut("b.h").is_none());
}

#[test]
fn mem_hook_reads_like_mem() {
    let mut hook = MemHook::new();
    assert!(hook.add_file("sub/a.h", "A\n".to_string()).is_ok());
    assert!(hook.add_file("b.h", "B\n".to_string()).is_ok());
    assert!(matches!(
        hook.add_file("b.h", "again\n".to_string()).unwrap_err().kind(),
        ErrorKind::AlreadyExists
    ));
    let (p, t) = hook.read("a.h", Some("sub")).unwrap();
    assert_eq!(p, "sub/a.h");
    assert_eq!(t, "A\n");
    let (p2, t2) = hook.read("b.h", Some("sub")).unwrap();
    assert_eq!(p2, "b.h");
    assert_eq!(t2, "B\n");
    assert!(matches!(
        hook.read("c.h", None).unwrap_err().kind(),
        ErrorKind::NotFound
    ));
    let built = MemHook::builder()
        .add_file("x.h", "X\n".to_string())
        .unwrap()
        .build();
    assert_eq!(built.read("x.h", None).unwrap().1, "X\n");
}

#[test]
fn list_hook_falls_through() {
    let one = MemHook::builder()
        .add_file("a.h", "A one\n".to_string())
        .unwrap()
        .build();
    let two = MemHook::builder()
        .add_file("a.h", "A two\n".to_string())
        .unwrap()
        .add_file("b.h", "B two\n".to_string())
        .unwrap()
        .build();
    let list = ListHook::builder().add_hook(one).add_hook(two).build();
    assert_eq!(list.read("a.h", None).unwrap().1, "A one\n");
    assert_eq!(list.read("b.h", None).unwrap().1, "B two\n");
    assert!(matches!(
        list.read("c.h", None).unwrap_err().kind(),
        ErrorKind::NotFound
    ));
}

#[test]
fn pragma_with_trailing_text_counts() {
    let hook = Mem::builder()
        .add_file("main.c", "#pragma once // guard\nbody\n".to_string())
        .unwrap()
        .build();
    let mut parser = Parser::builder().add_source(hook).build();
    let node = parser.parse("main.c").unwrap();
    assert_eq!(node.collect().0, "\nbody\n");
}
