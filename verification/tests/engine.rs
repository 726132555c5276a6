use inliner::{Index, Mem, Parser};

fn inc(name: &str) -> String {
    format!("#inclu{}e <{}>", "d", name)
}

#[test]
fn main_only() {
    let main = "int main() {\n    return RET_CODE;\n}\n";

    let hook = Mem::builder()
        .add_file("main.c", main.to_string())
        .unwrap()
        .build();
    let mut parser = Parser::builder().add_source(hook).build();
    let node = parser.parse("main.c").unwrap();

    assert_eq!(node.collect().0, main);
}

#[test]
fn single_header() {
    let main = format!(
        "{}\n{}\n// Main function\nint main() {{\n    return RET_CODE;\n}}\n",
        inc("header.h"),
        inc("header.h"),
    );
    let header = "#pragma once\n// Return code\nstatic const int RET_CODE = 0;\n";
    let result = "\n\n// Return code\nstatic const int RET_CODE = 0;\n\n// Main function\nint main() {\n    return RET_CODE;\n}\n";

    let hook = Mem::builder()
        .add_file("main.c", main)
        .unwrap()
        .add_file("header.h", header.to_string())
        .unwrap()
        .build();
    let mut parser = Parser::builder().add_source(hook).build();
    let node = parser.parse("main.c").unwrap();

    assert_eq!(node.collect().0, result);
}

#[test]
#[should_panic]
fn recursion() {
    let first = format!("{}\n", inc("second.h"));
    let second = format!("{}\n", inc("first.h"));

    let hook = Mem::builder()
        .add_file("first.h", first)
        .unwrap()
        .add_file("second.h", second)
        .unwrap()
        .build();
    let mut parser = Parser::builder().add_source(hook).build();
    parser.parse("first.h").unwrap();
}

#[test]
fn recursion_prevented() {
    let first = format!("#pragma once\n{}\n", inc("second.h"));
    let second = format!("#pragma once\n{}\n", inc("first.h"));

    let hook = Mem::builder()
        .add_file("first.h", first)
        .unwrap()
        .add_file("second.h", second)
        .unwrap()
        .build();
    let mut parser = Parser::builder().add_source(hook).build();
    let node = parser.parse("first.h").unwrap();

    assert_eq!(node.collect().0, "\n\n\n\n");
}

#[test]
fn multiple_headers() {
    let main = format!("{}\n{}\n", inc("h02.h"), inc("h01.h"));
    let h01 = format!("#pragma once\n{}\nh01\n", inc("h02.h"));
    let h02 = format!("#pragma once\n{}\nh02\n", inc("h01.h"));

    let hook = Mem::builder()
        .add_file("main.c", main)
        .unwrap()
        .add_file("h01.h", h01)
        .unwrap()
        .add_file("h02.h", h02)
        .unwrap()
        .build();
    let mut parser = Parser::builder().add_source(hook).build();
    let node = parser.parse("main.c").unwrap();

    assert_eq!(node.collect().0, "\n\n\n\n\nh01\nh02\n\n");
}

#[test]
fn line_numbers() {
    let main = format!(
        "0\n1\n2\n{}\n9\n10\n{}\n15\n16\n",
        inc("h01.h"),
        inc("h03.h"),
    );
    let h01 = format!("4\n{}\n8\n", inc("h02.h"));
    let h02 = "6\n7\n";
    let h03 = "12\n13\n14\n";

    let hook = Mem::builder()
        .add_file("main.c", main)
        .unwrap()
        .add_file("h01.h", h01)
        .unwrap()
        .add_file("h02.h", h02.to_string())
        .unwrap()
        .add_file("h03.h", h03.to_string())
        .unwrap()
        .build();
    let mut parser = Parser::builder().add_source(hook).build();
    let node = parser.parse("main.c").unwrap();

    let source = node.collect().0;
    for (pos, line) in source.lines().enumerate() {
        let tline = line.trim_end();
        if !tline.is_empty() {
            assert_eq!(tline.parse::<usize>().unwrap(), pos);
        }
    }
}

fn assert_line_index(source: &str, index: &Index) {
    for (pos, line) in source.lines().enumerate() {
        let (name, lpos) = index.search(pos).unwrap();
        let tline = line.trim_end();
        if !tline.is_empty() {
            let n = tline.parse::<usize>().unwrap();
            let (f, l) = (n / 10, n % 10);
            assert_eq!(
                match f {
                    0 => "main.c".to_string(),
                    x => format!("h0{}.h", x),
                },
                name,
            );
            assert_eq!(l, lpos);
        }
    }
}

#[test]
fn indexing() {
    let main = format!(
        "00\n01\n02\n{}\n04\n05\n{}\n07\n08\n",
        inc("h01.h"),
        inc("h03.h"),
    );
    let h01 = format!("10\n{}\n12\n", inc("h02.h"));
    let h02 = "20\n21\n";
    let h03 = "30\n31\n32\n";

    let hook = Mem::builder()
        .add_file("main.c", main)
        .unwrap()
        .add_file("h01.h", h01)
        .unwrap()
        .add_file("h02.h", h02.to_string())
        .unwrap()
        .add_file("h03.h", h03.to_string())
        .unwrap()
        .build();
    let mut parser = Parser::builder().add_source(hook).build();
    let node = parser.parse("main.c").unwrap();

    let (source, index) = node.collect();
    assert_line_index(&source, &index);
}

#[test]
fn indexing_once() {
    let main = format!(
        "00\n01\n02\n{}\n04\n05\n{}\n07\n08\n",
        inc("h01.h"),
        inc("h02.h"),
    );
    let h01 = format!("#pragma once\n11\n{}\n13\n", inc("h02.h"));
    let h02 = format!("#pragma once\n21\n{}\n23\n", inc("h01.h"));

    let hook = Mem::builder()
        .add_file("main.c", main)
        .unwrap()
        .add_file("h01.h", h01)
        .unwrap()
        .add_file("h02.h", h02)
        .unwrap()
        .build();
    let mut parser = Parser::builder().add_source(hook).build();
    let node = parser.parse("main.c").unwrap();

    let (source, index) = node.collect();
    assert_line_index(&source, &index);
}

#[test]
fn define_gates() {
    let input = "1\n#ifdef ABC\n2\n#ifdef XYZ\n3\n#ifndef DEF\n4\n#else // DEF\n5\n#endif // DEF\n6\n#else // XYZ\n7\n#endif // XYZ\n8\n#else // !ABC\n9\n#ifdef XYZ\nA\n#else // !XYZ\nB\n#endif // XYZ\nC\n#endif // ABC\nD\n#if defined(ABC)\nE\n#endif // ABC\nF\n";

    let output = "1\n\n2\n#ifdef XYZ\n3\n\n\n\n5\n\n6\n#else // XYZ\n7\n#endif // XYZ\n8\n\n\n\n\n\n\n\n\n\nD\n#if defined(ABC)\nE\n#endif // ABC\nF\n";

    let hook = Mem::builder()
        .add_file("input.c", input.to_string())
        .unwrap()
        .build();
    let mut parser = Parser::builder()
        .add_source(hook)
        .add_flag(String::from("ABC"), true)
        .add_flag(String::from("DEF"), true)
        .build();
    let node = parser.parse("input.c").unwrap();

    assert_eq!(node.collect().0, output);
}

#[test]
fn define_gate_inclusion() {
    let main = format!(
        "#ifdef ABC\n{}\n#else // !ABC\n{}\n#endif // ABC\n",
        inc("h0.h"),
        inc("h1.h"),
    );
    let h0 = "H0 0\nH0 1\nH0 2\n";
    let h1 = "H1 0\nH1 1\nH1 2\n";

    let result = "\n\n\n\nH1 0\nH1 1\nH1 2\n\n";

    let hook = Mem::builder()
        .add_file("main.c", main)
        .unwrap()
        .add_file("h0.h", h0.to_string())
        .unwrap()
        .add_file("h1.h", h1.to_string())
        .unwrap()
        .build();
    let mut parser = Parser::builder()
        .add_source(hook)
        .add_flag(String::from("ABC"), false)
        .build();
    let node = parser.parse("main.c").unwrap();

    assert_eq!(node.collect().0, result);
}
