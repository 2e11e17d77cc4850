use minigrep::{filter, search, search_case_insensitive};

const POEM: &str = "\
Rust:
safe, fast, productive.
Pick three.
Duct tape";

/// Whether `part` is `whole` with some items left out, the others in order.
fn is_subsequence(part: &[&str], whole: &[&str]) -> bool {
    let mut next = 0;
    for item in whole {
        if next < part.len() && part[next] == *item {
            next += 1;
        }
    }
    next == part.len()
}

#[test]
fn case_sensitive_search() {
    let search_for = "duct";
    let contents = "\
Rust:
safe, fast, productive.
Pick three.
Duct tape";

    assert_eq!(
        vec!["safe, fast, productive."],
        search(search_for, contents)
    );
}

#[test]
fn case_insensitive_search() {
    let search_for = "rUSt";
    let contents = "\
Rust:
safe, fast, productive.
Pick three
Trust me.";

    assert_eq!(
        vec!["Rust:", "Trust me."],
        search_case_insensitive(search_for, contents)
    );
}

#[test]
fn case_insensitive_search_keeps_only_lines_with_the_term() {
    assert_eq!(vec!["Rust:"], search_case_insensitive("rUSt", POEM));
    assert_eq!(vec!["Rust:"], filter("rUSt", POEM, true));
}

#[test]
fn case_sensitive_search_tells_case_apart() {
    assert_eq!(Vec::<&str>::new(), search("rUSt", POEM));
    assert_eq!(vec!["Duct tape"], search("Duct", POEM));
    assert_eq!(
        vec!["safe, fast, productive.", "Duct tape"],
        search_case_insensitive("DUCT", POEM)
    );
}

#[test]
fn documented_examples() {
    let text = "\
Hello world
You wonderful world
the sun is shining
just for you
";
    assert_eq!(vec!["just for you"], search("you", text));
    assert_eq!(
        vec!["You wonderful world", "just for you"],
        search_case_insensitive("you", text)
    );
}

#[test]
fn every_kept_line_holds_the_term() {
    let document = "alpha beta\nbeta gamma\ngamma delta\nbeta\n\nalphabet";
    for term in ["beta", "a", "gamma d", "alpha", "zeta", " "] {
        let kept = search(term, document);
        for line in &kept {
            assert!(line.contains(term));
        }
        let all: Vec<&str> = document.lines().collect();
        assert!(is_subsequence(&kept, &all));
        let expected: Vec<&str> = document.lines().filter(|line| line.contains(term)).collect();
        assert_eq!(expected, kept);
    }
}

#[test]
fn kept_lines_keep_document_order_and_duplicates() {
    let document = "b1\na\nb2\nb1\na\nb3";
    assert_eq!(vec!["b1", "b2", "b1", "b3"], search("b", document));
    assert_eq!(vec!["a", "a"], search_case_insensitive("A", document));
}

#[test]
fn ignoring_case_keeps_what_the_exact_search_keeps() {
    let document = "Rust is fast\nrust never sleeps\nTRUST\nno match here\nCrust";
    for term in ["rust", "Rust", "RUST", "fast", "e", ""] {
        let exact = search(term, document);
        let folded = search_case_insensitive(term, document);
        assert!(is_subsequence(&exact, &folded));
    }
    assert_eq!(vec!["rust never sleeps", "Crust"], search("rust", document));
    assert_eq!(
        vec!["Rust is fast", "rust never sleeps", "TRUST", "Crust"],
        search_case_insensitive("rust", document)
    );
}

#[test]
fn a_final_sigma_is_lost_to_lowercase() {
    // In lowercase a capital sigma at the end of a word is written otherwise
    // than one that stands alone, so here the exact search keeps a line that
    // the case-insensitive search drops.
    let document = "\u{391}\u{3a3}";
    assert_eq!(vec![document], search("\u{3a3}", document));
    assert_eq!(Vec::<&str>::new(), search_case_insensitive("\u{3a3}", document));
}

#[test]
fn empty_term_keeps_every_line() {
    let document = "first\n\nthird\r\nfourth\n";
    assert_eq!(vec!["first", "", "third", "fourth"], search("", document));
    assert_eq!(
        vec!["first", "", "third", "fourth"],
        search_case_insensitive("", document)
    );
    assert_eq!(vec!["first", "", "third", "fourth"], filter("", document, false));
}

#[test]
fn empty_document_has_no_lines() {
    assert_eq!(Vec::<&str>::new(), search("", ""));
    assert_eq!(Vec::<&str>::new(), search("a", ""));
    assert_eq!(Vec::<&str>::new(), search_case_insensitive("", ""));
}

#[test]
fn no_match_gives_no_lines() {
    assert_eq!(Vec::<&str>::new(), search("absent", POEM));
    assert_eq!(Vec::<&str>::new(), search_case_insensitive("absent", POEM));
}

#[test]
fn a_term_never_spans_lines() {
    assert_eq!(Vec::<&str>::new(), search("a\nb", "a\nb"));
    assert_eq!(Vec::<&str>::new(), search("ab", "a\nb"));
    assert_eq!(Vec::<&str>::new(), search("\n", "a\nb\n"));
    assert_eq!(Vec::<&str>::new(), search("a\r", "a\r\nb"));
}

#[test]
fn kept_lines_are_written_as_in_the_document() {
    let document = "MiXeD Case Line\nother";
    assert_eq!(
        vec!["MiXeD Case Line"],
        search_case_insensitive("mixed case", document)
    );
    assert_eq!(
        vec!["MiXeD Case Line"],
        search_case_insensitive("MIXED CASE", document)
    );
}

#[test]
fn letters_beyond_ascii_are_lowered_too() {
    let document = "caf\u{e9}\nCAF\u{c9}\ncafe";
    assert_eq!(
        vec!["caf\u{e9}", "CAF\u{c9}"],
        search_case_insensitive("\u{c9}", document)
    );
    assert_eq!(vec!["CAF\u{c9}"], search("\u{c9}", document));
    assert_eq!(vec!["caf\u{e9}"], search("\u{e9}", document));
}

#[test]
fn terms_of_several_bytes_are_found_whole() {
    let document = "\u{65e5}\u{672c}\u{8a9e}\nnihongo\n\u{672c}";
    assert_eq!(
        vec!["\u{65e5}\u{672c}\u{8a9e}", "\u{672c}"],
        search("\u{672c}", document)
    );
    assert_eq!(
        vec!["\u{65e5}\u{672c}\u{8a9e}"],
        search("\u{65e5}\u{672c}", document)
    );
    assert_eq!(Vec::<&str>::new(), search("\u{8a9e}\u{672c}", document));
}

#[test]
fn filter_follows_its_mode() {
    let document = "Rust:\nTrust me.\nrust";
    assert_eq!(search("rust", document), filter("rust", document, false));
    assert_eq!(
        search_case_insensitive("rust", document),
        filter("rust", document, true)
    );
    assert_eq!(vec!["Trust me.", "rust"], filter("rust", document, false));
    assert_eq!(
        vec!["Rust:", "Trust me.", "rust"],
        filter("rust", document, true)
    );
}

#[test]
fn the_same_inputs_give_the_same_lines() {
    let document = "one\ntwo\nthree\nTwo and one";
    for mode in [false, true] {
        let first = filter("o", document, mode);
        let second = filter("o", document, mode);
        assert_eq!(first, second);
    }
    assert_eq!(search("two", document), search("two", document));
    assert_eq!(
        search_case_insensitive("two", document),
        search_case_insensitive("two", document)
    );
}
