use servio::ignore::{
    glob_matches, ignore_file_lines, ignores, pattern_from, patterns_from, refusal, IgnorePattern, Refusal,
};

fn given(patterns: &[&str]) -> Vec<(Option<usize>, String)> {
    patterns.iter().map(|p| (None, p.to_string())).collect()
}

fn read(patterns: &[&str]) -> Vec<IgnorePattern> {
    match patterns_from(&given(patterns), false) {
        Ok(read) => read,
        Err(said) => panic!("{said}"),
    }
}

fn with_file(patterns: &[&str], contents: &str) -> Vec<IgnorePattern> {
    let mut sources = given(patterns);
    for (line, text) in ignore_file_lines(contents) {
        sources.push((Some(line), text));
    }
    match patterns_from(&sources, false) {
        Ok(read) => read,
        Err(said) => panic!("{said}"),
    }
}

fn chars(text: &str) -> Vec<char> {
    text.chars().collect()
}

#[test]
fn editor_scratch_files_are_ignored() {
    let none = read(&[]);
    for path in [
        "index.html.swp",
        "index.html~",
        "#index.html#",
        ".#index.html",
        ".git/HEAD",
        "node_modules/left-pad/index.js",
    ] {
        assert!(ignores(&none, path, false), "{path}");
    }
}

#[test]
fn while_polling_the_ignored_files_are_still_ignored() {
    let none = read(&[]);
    assert!(ignores(&none, "index.html.swp", false));
    assert!(ignores(&none, "node_modules/left-pad/index.js", false));
}

#[test]
fn a_change_matching_an_ignore_pattern_does_not_refresh() {
    let patterns = read(&["*.log", "cache"]);
    assert!(ignores(&patterns, "build.log", false));
    assert!(ignores(&patterns, "out/build.log", false));
    assert!(ignores(&patterns, "cache/pages/index.html", false));
    // Everything else still does.
    assert!(!ignores(&patterns, "app.css", false));
}

#[test]
fn a_change_matching_an_ignore_pattern_does_not_refresh_while_polling() {
    let patterns = read(&["*.log"]);
    assert!(ignores(&patterns, "build.log", false));
    assert!(!ignores(&patterns, "app.css", false));
}

#[test]
fn the_ignore_file_in_the_served_directory_is_read() {
    let patterns = with_file(&["*.map"], "# what the build writes\n*.log\ncache\n");
    assert!(ignores(&patterns, "build.log", false));
    assert!(ignores(&patterns, "cache/pages/index.html", false));
    assert!(ignores(&patterns, "app.css.map", false));
    // The file itself is hidden.
    assert!(ignores(&patterns, ".servioignore", false));
    assert!(!ignores(&patterns, "app.css", false));
}

#[test]
fn files_that_are_never_served_do_not_refresh() {
    let none = read(&[]);
    assert!(ignores(&none, ".idea/workspace.xml", false));
    assert!(ignores(&none, ".vscode/settings.json", false));
    assert!(ignores(&none, ".env", false));
}

#[test]
fn changes_the_web_can_reach_still_refresh() {
    let none = read(&[]);
    assert!(!ignores(&none, ".well-known/token", false));
}

#[test]
fn a_broken_ignore_pattern_is_refused_in_plain_words() {
    let said = match patterns_from(&given(&["[abc"]), false) {
        Ok(_) => panic!("a broken pattern was taken"),
        Err(said) => said,
    };
    assert!(said.contains("cannot ignore \"[abc\": a [ has no ] to close it"), "{said}");
}

#[test]
fn a_broken_line_of_the_ignore_file_is_refused_by_its_number() {
    let lines = ignore_file_lines("*.log\n\n[abc\n");
    assert_eq!(lines, vec![(1, "*.log".to_string()), (3, "[abc".to_string())]);
    let sources: Vec<(Option<usize>, String)> = lines.into_iter().map(|(n, t)| (Some(n), t)).collect();
    let said = match patterns_from(&sources, false) {
        Ok(_) => panic!("a broken pattern was taken"),
        Err(said) => said,
    };
    assert!(
        said.contains("cannot ignore \"[abc\", line 3 of .servioignore: a [ has no ] to close it"),
        "{said}"
    );
}

#[test]
fn a_mark_at_the_start_of_the_ignore_file_is_not_part_of_a_pattern() {
    let contents = "\u{feff}*.log\ncache\n";
    assert_eq!(ignore_file_lines(contents), vec![(1, "*.log".to_string()), (2, "cache".to_string())]);
    let patterns = with_file(&[], contents);
    assert!(ignores(&patterns, "build.log", false));
}

#[test]
fn blank_lines_comments_and_white_space_are_not_patterns() {
    let lines = ignore_file_lines("  *.log \r\n# a comment\n\t\n  # indented comment\ncache");
    assert_eq!(lines, vec![(1, "*.log".to_string()), (5, "cache".to_string())]);
    assert_eq!(ignore_file_lines(""), vec![]);
    assert_eq!(ignore_file_lines("\n\n"), vec![]);
}

#[test]
fn a_name_pattern_matches_at_any_depth() {
    let patterns = read(&["*.log"]);
    assert!(ignores(&patterns, "a/b/c/x.log", false));
    let patterns = read(&["cache"]);
    assert!(ignores(&patterns, "cache", false));
    assert!(ignores(&patterns, "site/cache/page.html", false));
    assert!(!ignores(&patterns, "cached/page.html", false));
}

#[test]
fn a_pattern_from_the_root_matches_only_at_the_top() {
    let patterns = read(&["/cache"]);
    assert!(ignores(&patterns, "cache", false));
    assert!(ignores(&patterns, "cache/page.html", false));
    assert!(!ignores(&patterns, "site/cache/page.html", false));
}

#[test]
fn a_pattern_with_a_folder_matches_directly_inside_it() {
    let patterns = read(&["build/*.log"]);
    assert!(ignores(&patterns, "build/out.log", false));
    assert!(!ignores(&patterns, "build/sub/out.log", false));
    assert!(!ignores(&patterns, "site/build/out.log", false));
    assert!(!ignores(&patterns, "out.log", false));
}

#[test]
fn any_depth_matches_the_folder_and_everything_inside() {
    let patterns = read(&["tmp/**"]);
    assert!(ignores(&patterns, "tmp", false));
    assert!(ignores(&patterns, "tmp/a/b/c.txt", false));
    assert!(!ignores(&patterns, "site/tmp", false));
    let patterns = read(&["a/**/z"]);
    assert!(ignores(&patterns, "a/z", false));
    assert!(ignores(&patterns, "a/b/c/z", false));
    assert!(!ignores(&patterns, "a/b/c/y", false));
}

#[test]
fn ignoring_a_file_does_not_ignore_its_folder() {
    let patterns = read(&["*.log"]);
    assert!(!ignores(&patterns, "out", false));
    let patterns = read(&["out/**"]);
    assert!(ignores(&patterns, "out", false));
}

#[test]
fn a_star_does_not_cross_a_slash() {
    let patterns = read(&["a/*"]);
    assert!(ignores(&patterns, "a/b", false));
    assert!(ignores(&patterns, "a/b/c", false));
    let patterns = read(&["a*c"]);
    assert!(!ignores(&patterns, "ab/c", false));
    assert!(ignores(&patterns, "abbc", false));
}

#[test]
fn letter_case_is_set_aside_only_when_asked() {
    let folded = match patterns_from(&given(&["*.LOG"]), true) {
        Ok(read) => read,
        Err(said) => panic!("{said}"),
    };
    assert!(ignores(&folded, "Build.log", true));
    assert!(ignores(&folded, "build.LOG", true));
    let exact = read(&["*.LOG"]);
    assert!(!ignores(&exact, "build.log", false));
    assert!(ignores(&exact, "build.LOG", false));
}

#[test]
fn classes_and_single_characters() {
    assert!(glob_matches(&chars("[abc].txt"), &chars("a.txt")));
    assert!(!glob_matches(&chars("[abc].txt"), &chars("d.txt")));
    assert!(glob_matches(&chars("[a-c]x"), &chars("bx")));
    assert!(!glob_matches(&chars("[a-c]x"), &chars("dx")));
    assert!(glob_matches(&chars("[!a-c]x"), &chars("dx")));
    assert!(!glob_matches(&chars("[^a-c]x"), &chars("ax")));
    assert!(glob_matches(&chars("?.md"), &chars("a.md")));
    assert!(!glob_matches(&chars("?.md"), &chars("ab.md")));
    assert!(glob_matches(&chars("*"), &chars("")));
    assert!(glob_matches(&chars("a*b*c"), &chars("aXbYc")));
    assert!(!glob_matches(&chars("a*b*c"), &chars("aXbY")));
}

#[test]
fn a_pattern_that_names_nothing_is_refused() {
    assert!(matches!(pattern_from("/", false), Err(Refusal::NamesNothing)));
    assert!(matches!(pattern_from("", false), Err(Refusal::NamesNothing)));
    assert!(matches!(pattern_from("a/[b", false), Err(Refusal::UnclosedClass)));
    assert!(pattern_from("cache/", false).is_ok());
    assert_eq!(
        refusal("//", None, Refusal::NamesNothing),
        "cannot ignore \"//\": the pattern names nothing"
    );
    assert_eq!(
        refusal("[x", Some(12), Refusal::UnclosedClass),
        "cannot ignore \"[x\", line 12 of .servioignore: a [ has no ] to close it"
    );
}

#[test]
fn the_first_refused_pattern_is_the_one_named() {
    let said = match patterns_from(&given(&["ok", "[one", "[two"]), false) {
        Ok(_) => panic!("a broken pattern was taken"),
        Err(said) => said,
    };
    assert_eq!(said, "cannot ignore \"[one\": a [ has no ] to close it");
}

#[test]
fn what_is_inside_an_ignored_folder_is_ignored() {
    let patterns = read(&["/build"]);
    assert!(ignores(&patterns, "build", false));
    assert!(ignores(&patterns, "build/a/b/c.html", false));
}

#[test]
fn more_patterns_ignore_no_less() {
    let one = read(&["*.log"]);
    let two = read(&["*.log", "*.map"]);
    assert!(ignores(&one, "x.log", false) && ignores(&two, "x.log", false));
    assert!(!ignores(&one, "x.map", false) && ignores(&two, "x.map", false));
}
