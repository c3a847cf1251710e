use latex_thebib::bibtex;
use latex_thebib::clean::{clean_bib_text, dedup_token, strip_tex_source, trim_braces};
use latex_thebib::cluster::{find_connected_components, reduce_bib, Threshold};
use latex_thebib::compile;
use latex_thebib::compile::{CompileCli, CompileError};
use latex_thebib::distance::edit_distance;
use latex_thebib::extract::{
    find_thebibliography, get_bibitems, parse_bibliography, scan_document, scan_includes,
    BibEntry, Cite, CiteKind, ScanItem,
};
use latex_thebib::keymap::KeyMap;
use latex_thebib::plan::{clean_cites, minimal_bib, take_used, vec_dedup};
use latex_thebib::rewrite::rewrite_text;
use latex_thebib::thebibliography_size;

fn trim_braces_str(s: &str) -> String {
    let v: Vec<char> = s.chars().collect();
    let out = trim_braces(&v);
    out.into_iter().collect()
}

#[test]
fn edit_distance_to_self_is_zero() {
    assert_eq!(edit_distance("Smith, Title, 2000", "Smith, Title, 2000"), 0);
    assert_eq!(edit_distance("", ""), 0);
}

#[test]
fn edit_distance_from_empty_is_length() {
    assert_eq!(edit_distance("", "abc"), 3);
    assert_eq!(edit_distance("abc", ""), 3);
}

#[test]
fn edit_distance_is_symmetric() {
    assert_eq!(
        edit_distance("kitten", "sitting"),
        edit_distance("sitting", "kitten")
    );
    assert_eq!(edit_distance("kitten", "sitting"), 3);
}

#[test]
fn edit_distance_counts_characters_not_bytes() {
    assert_eq!(edit_distance("", "\u{e9}\u{e8}"), 2);
}

#[test]
fn clean_collapses_whitespace_and_font_command() {
    assert_eq!(clean_bib_text("a  b\nc\t\\it d"), "a b c \\em d");
}

#[test]
fn clean_is_idempotent() {
    let once = clean_bib_text("x \\it\ny   z\r\n");
    let twice = clean_bib_text(&once);
    assert_eq!(once, twice);
}

#[test]
fn clean_leaves_clean_text_alone() {
    assert_eq!(clean_bib_text("Smith, Title, 2000"), "Smith, Title, 2000");
}

#[test]
fn dedup_token_folds_newline_runs() {
    assert_eq!(dedup_token("a\n\n\n\n\nb", "\n", 3), "a\n\nb");
    assert_eq!(dedup_token("aaaa", "a", 2), "a");
    assert_eq!(dedup_token("xyx", "y", 1), "xx");
    assert_eq!(dedup_token("abc", "", 3), "abc");
}

#[test]
fn strip_drops_comments_and_folds_blank_lines() {
    let src = "line1 % comment\n% full comment\nkeep \\% pct\n\n\n\nend";
    assert_eq!(strip_tex_source(src), "line1\nkeep \\% pct\n\nend");
}

#[test]
fn strip_trims_each_line() {
    assert_eq!(strip_tex_source("  a  \n\tb\t"), "a\nb");
}

#[test]
fn trim_braces_removes_one_outer_pair() {
    assert_eq!(trim_braces_str("{Title}"), "Title");
    assert_eq!(trim_braces_str(" {X} "), "X");
    assert_eq!(trim_braces_str("plain"), "plain");
    assert_eq!(trim_braces_str("{Nested {braces}}"), "Nested {braces}");
}

#[test]
fn vec_dedup_keeps_first_occurrences() {
    let mut v: Vec<String> = vec![
        "a".to_owned(),
        "b".to_owned(),
        "a".to_owned(),
        "c".to_owned(),
        "b".to_owned(),
    ];
    vec_dedup(&mut v);
    assert_eq!(v, vec!["a".to_owned(), "b".to_owned(), "c".to_owned()]);
}

#[test]
fn size_is_smallest_all_nines_bound() {
    assert_eq!(thebibliography_size(0), 0);
    assert_eq!(thebibliography_size(5), 9);
    assert_eq!(thebibliography_size(9), 9);
    assert_eq!(thebibliography_size(10), 99);
    assert_eq!(thebibliography_size(100), 999);
}

#[test]
fn scanner_finds_citations_and_includes_in_order() {
    let items = scan_document("Text \\cite{a, b} more \\citet{c} \\input{ch1} \\citep{d}.");
    assert_eq!(items.len(), 4);
    match &items[0] {
        ScanItem::Citation(c) => {
            assert_eq!(c.keys, vec!["a".to_owned(), "b".to_owned()]);
            assert!(matches!(c.kind, CiteKind::Cite));
            assert_eq!(c.raw, "\\cite{a, b}");
        }
        ScanItem::Include(_) => panic!("expected a citation"),
    }
    match &items[1] {
        ScanItem::Citation(c) => {
            assert_eq!(c.keys, vec!["c".to_owned()]);
            assert!(matches!(c.kind, CiteKind::Citet));
        }
        ScanItem::Include(_) => panic!("expected a citation"),
    }
    match &items[2] {
        ScanItem::Include(t) => assert_eq!(t, "ch1"),
        ScanItem::Citation(_) => panic!("expected an include"),
    }
    match &items[3] {
        ScanItem::Citation(c) => assert!(matches!(c.kind, CiteKind::Citep)),
        ScanItem::Include(_) => panic!("expected a citation"),
    }
}

#[test]
fn scanner_ignores_unclosed_and_empty_commands() {
    assert_eq!(scan_document("\\cite{} and \\cite{never closed").len(), 0);
}

#[test]
fn includes_are_filtered_in_order() {
    let t = scan_includes("\\input{a} \\cite{x} \\include{b} \\includeonly{c}");
    assert_eq!(t, vec!["a".to_owned(), "b".to_owned(), "c".to_owned()]);
}

const BIB_BLOCK: &str = "\\begin{thebibliography}{9}\n\\bibitem{a} Smith, Title, 2000\n\\bibitem{b} Jones,\n  Other\n\\end{thebibliography}";

#[test]
fn bibliography_entries_are_parsed_and_cleaned() {
    let es = parse_bibliography(BIB_BLOCK);
    assert_eq!(es.len(), 2);
    assert_eq!(es[0].key, "a");
    assert_eq!(es[0].text, "Smith, Title, 2000");
    assert_eq!(es[1].key, "b");
    assert_eq!(es[1].text, "Jones, Other");
}

#[test]
fn bibliography_blocks_are_found_whole() {
    let text = format!("before {} middle {} after", BIB_BLOCK, BIB_BLOCK);
    let blocks = find_thebibliography(&text);
    assert_eq!(blocks.len(), 2);
    assert_eq!(blocks[0], BIB_BLOCK);
}

#[test]
fn bibitems_region_needs_a_bibitem() {
    assert!(get_bibitems("\\begin{thebibliography}{9}\\end{thebibliography}").is_none());
    let r = get_bibitems(BIB_BLOCK).expect("region");
    assert!(r.starts_with("\\bibitem{a}"));
}

fn entry(key: &str, text: &str) -> BibEntry {
    BibEntry {
        key: key.to_owned(),
        text: text.to_owned(),
    }
}

#[test]
fn close_texts_cluster_and_far_texts_do_not() {
    let bib = vec![
        entry("a", "Smith, Title, 2000"),
        entry("b", "Smith, Title, 2001"),
        entry("c", "A Completely Different Reference Text"),
    ];
    let th = Threshold { num: 3, den: 10 };
    let comps = find_connected_components(&bib, &th);
    assert_eq!(comps.len(), 2);
    assert_eq!(comps[0], vec![0, 1]);
    assert_eq!(comps[1], vec![2]);
}

#[test]
fn same_key_always_clusters_whatever_the_distance() {
    let bib = vec![
        entry("k", "Smith, Title, 2000"),
        entry("k", "A Completely Different Reference Text"),
    ];
    let th = Threshold { num: 3, den: 10 };
    let comps = find_connected_components(&bib, &th);
    assert_eq!(comps.len(), 1);
    assert_eq!(comps[0], vec![0, 1]);
}

#[test]
fn reduce_keeps_one_canonical_entry_per_cluster_sorted_by_key() {
    let bib = vec![
        entry("b", "Jones, Other, 2001"),
        entry("a", "Smith, Title, 2000"),
        entry("c", "Smith, Title, 2000"),
    ];
    let th = Threshold { num: 3, den: 10 };
    let (reps, red) = reduce_bib(&bib, &th);
    let keys: Vec<&str> = red.iter().map(|e| e.key.as_str()).collect();
    assert_eq!(keys, vec!["a", "b"]);
    assert_eq!(reps.lookup(&"c".to_owned()), Some("a".to_owned()));
    assert_eq!(reps.lookup(&"a".to_owned()), None);
    assert_eq!(reps.lookup(&"b".to_owned()), None);
}

#[test]
fn keymap_last_insert_wins() {
    let mut m = KeyMap::new();
    m.insert("x".to_owned(), "1".to_owned());
    m.insert("y".to_owned(), "2".to_owned());
    m.insert("x".to_owned(), "3".to_owned());
    assert_eq!(m.lookup(&"x".to_owned()), Some("3".to_owned()));
    assert_eq!(m.lookup(&"y".to_owned()), Some("2".to_owned()));
    assert_eq!(m.lookup(&"z".to_owned()), None);
}

fn cite(keys: &[&str], kind: CiteKind, raw: &str) -> Cite {
    Cite {
        keys: keys.iter().map(|k| (*k).to_owned()).collect(),
        kind,
        raw: raw.to_owned(),
    }
}

#[test]
fn cleaned_citations_are_remapped_and_deduplicated() {
    let mut reps = KeyMap::new();
    reps.insert("b".to_owned(), "a".to_owned());
    let cites = vec![cite(&["a", "b"], CiteKind::Cite, "\\cite{a,b}")];
    let cleaned = clean_cites(&cites, &reps);
    assert_eq!(cleaned[0].keys, vec!["a".to_owned()]);
    assert_eq!(cleaned[0].raw, "\\cite{a,b}");
}

#[test]
fn minimal_bibliography_follows_first_citation_order() {
    let clean = vec![
        cite(&["b"], CiteKind::Cite, "\\cite{b}"),
        cite(&["a", "b"], CiteKind::Cite, "\\cite{a,b}"),
    ];
    let red = vec![entry("a", "TA"), entry("b", "TB")];
    let mb = minimal_bib(&clean, &red);
    let keys: Vec<&str> = mb.iter().map(|e| e.key.as_str()).collect();
    assert_eq!(keys, vec!["b", "a"]);
    assert_eq!(mb[0].text, "TB");
}

#[test]
fn missing_entry_gets_the_placeholder_text() {
    let clean = vec![cite(&["z"], CiteKind::Cite, "\\cite{z}")];
    let red: Vec<BibEntry> = Vec::new();
    let mb = minimal_bib(&clean, &red);
    assert_eq!(mb.len(), 1);
    assert_eq!(mb[0].key, "z");
    assert_eq!(mb[0].text, "ERROR, BIBENTRY NOT FOUND.");
}

const DOC: &str = "Intro \\cite{a,b} then \\cite{b,c}\n\\begin{thebibliography}{9}\n\\bibitem{a} Smith, Title, 2000\n\\bibitem{b} Smith, Title, 2000\n\\bibitem{c} Jones, Other, 2001\n\\end{thebibliography}\n";

#[test]
fn end_to_end_duplicates_collapse_to_the_canonical_key() {
    let mut cites: Vec<Cite> = Vec::new();
    for item in scan_document(DOC) {
        if let ScanItem::Citation(c) = item {
            cites.push(c);
        }
    }
    let bib = parse_bibliography(DOC);
    let th = Threshold { num: 3, den: 10 };
    let (clean, mb) = take_used(&bib, &cites, &th);
    assert_eq!(clean[0].keys, vec!["a".to_owned()]);
    assert_eq!(clean[1].keys, vec!["a".to_owned(), "c".to_owned()]);
    let keys: Vec<&str> = mb.iter().map(|e| e.key.as_str()).collect();
    assert_eq!(keys, vec!["a", "c"]);
    assert_eq!(mb[0].text, "Smith, Title, 2000");
    assert_eq!(mb[1].text, "Jones, Other, 2001");
}

#[test]
fn citation_serializes_from_its_key_list() {
    let c = cite(&["a", "c"], CiteKind::Citep, "\\citep{a, c}");
    assert_eq!(c.to_tex(), "\\citep{a,c}");
    let e = entry("k", "Some text");
    assert_eq!(e.to_tex(), "\\bibitem{k} Some text");
}

#[test]
fn rewrite_replaces_citations_and_bibliography_blocks() {
    let text = "X \\cite{a,b} Y\n\\begin{thebibliography}{9}\n\\bibitem{a} Old\n\\bibitem{b} Older\n\\end{thebibliography}";
    let cites = vec![cite(&["a"], CiteKind::Cite, "\\cite{a,b}")];
    let bib = vec![entry("a", "T")];
    let out = rewrite_text(text, &cites, &bib);
    assert_eq!(
        out,
        "X \\cite{a} Y\n\\begin{thebibliography}{9}\n\\bibitem{a} T\n\\end{thebibliography}"
    );
}

#[test]
fn rewrite_joins_entries_with_blank_lines() {
    let text = "\\begin{thebibliography}{9}\n\\bibitem{x} X\n\\end{thebibliography}";
    let cites: Vec<Cite> = Vec::new();
    let bib = vec![entry("a", "TA"), entry("b", "TB")];
    let out = rewrite_text(text, &cites, &bib);
    assert_eq!(
        out,
        "\\begin{thebibliography}{9}\n\\bibitem{a} TA\n\n\\bibitem{b} TB\n\\end{thebibliography}"
    );
}

#[test]
fn bibtex_records_are_parsed_with_fields() {
    let es = bibtex::parse("@article{smith2000, title = {A Title}, year = 1999}");
    assert_eq!(es.len(), 1);
    assert_eq!(es[0].name, "smith2000");
    assert_eq!(es[0].kind, "article");
    assert_eq!(es[0].params.len(), 2);
    assert_eq!(es[0].params[0], ("title".to_owned(), "A Title".to_owned()));
    assert_eq!(es[0].params[1], ("year".to_owned(), "1999".to_owned()));
}

#[test]
fn bibtex_values_may_nest_braces_one_level() {
    let es = bibtex::parse("@a{k, t = {Outer {Inner} Rest}, u = v}");
    assert_eq!(es[0].params[0], ("t".to_owned(), "Outer {Inner} Rest".to_owned()));
    assert_eq!(es[0].params[1], ("u".to_owned(), "v".to_owned()));
}

#[test]
fn bibtex_find_locates_a_character() {
    let v: Vec<char> = "hello".chars().collect();
    assert_eq!(bibtex::find(&v, 'l'), Some(2));
    assert_eq!(bibtex::find(&v, 'z'), None);
}

#[test]
fn closing_token_respects_brace_depth() {
    assert_eq!(compile::find_closing_token("ab{c}d}", '}', 0), Some(6));
    assert_eq!(compile::find_closing_token("{a,b},c", ',', 0), Some(5));
    assert_eq!(compile::find_closing_token("{never", '}', 0), None);
}

#[test]
fn raw_record_is_split_into_its_parts() {
    let (rest, etype, key, fields) =
        compile::get_bibentry_raw("@book{key1, title = {T}} tail").expect("record");
    assert_eq!(etype, "book");
    assert_eq!(key, "key1");
    assert_eq!(fields, "title = {T}");
    assert_eq!(rest, " tail");
}

#[test]
fn author_names_become_initials_before_last_name() {
    let auth = vec!["Smith".to_owned(), "John Paul".to_owned()];
    assert_eq!(compile::format_author(&auth), "J. P. Smith");
    let single = vec!["Smith".to_owned()];
    assert_eq!(compile::format_author(&single), "Smith");
}

#[test]
fn author_lists_get_small_caps_and_an_ampersand() {
    assert_eq!(
        compile::format_all_author("Smith, John and Doe, Jane"),
        "\\textsc{J. Smith \\& J. Doe}"
    );
    assert_eq!(compile::format_all_author("Solo, Han"), "\\textsc{H. Solo}");
}

fn bt_entry(fields: &[(&str, &str)]) -> bibtex::Entry {
    bibtex::Entry {
        name: "k".to_owned(),
        kind: "article".to_owned(),
        params: fields
            .iter()
            .map(|(a, b)| ((*a).to_owned(), (*b).to_owned()))
            .collect(),
    }
}

#[test]
fn volume_segment_takes_fields_from_the_back() {
    let full = bt_entry(&[("pages", "1"), ("number", "2"), ("volume", "3")]);
    assert_eq!(compile::format_volume(&full), "\\textbf{3}(2):1");
    let only_pages = bt_entry(&[("pages", "7")]);
    assert_eq!(compile::format_volume(&only_pages), "\\textbf{7}");
    let none = bt_entry(&[]);
    assert_eq!(compile::format_volume(&none), "");
}

#[test]
fn years_parse_as_plain_numbers() {
    assert_eq!(compile::parse_year("1999"), Some(1999));
    assert_eq!(compile::parse_year("+5"), Some(5));
    assert_eq!(compile::parse_year("abc"), None);
    assert_eq!(compile::parse_year(""), None);
}

fn cli(sort: bool, aslist: bool, publisher: bool, prefix: &str) -> CompileCli {
    CompileCli {
        file: String::new(),
        output: String::new(),
        publisher,
        sort,
        aslist,
        cite_prefix: prefix.to_owned(),
    }
}

const ONE_RECORD: &str =
    "@article{a, author = {Smith, John}, title = {T1}, year = {2000}, journal = {J}}";

#[test]
fn compile_formats_one_entry() {
    let out = compile::compile_text(ONE_RECORD, &cli(false, false, false, "")).expect("ok");
    assert_eq!(
        out,
        "\\begin{thebibliography}{9}\n\n\\bibitem{a} \\textsc{J. Smith} \\textit{T1}, J (2000)\n\n\\end{thebibliography}"
    );
}

#[test]
fn compile_sorts_by_year_descending() {
    let src = "@a{x, author = {A, B}, title = {T}, year = {1999}}\n@a{y, author = {C, D}, title = {U}, year = {2005}}";
    let out = compile::compile_text(src, &cli(true, false, false, "")).expect("ok");
    let posx = out.find("\\bibitem{x}").expect("x");
    let posy = out.find("\\bibitem{y}").expect("y");
    assert!(posy < posx);
}

#[test]
fn compile_as_list_numbers_the_entries() {
    let out = compile::compile_text(ONE_RECORD, &cli(false, true, false, "")).expect("ok");
    assert!(out.starts_with("\\begin{enumerate}\n"));
    assert!(out.contains("\\item[(1)]"));
    assert!(out.ends_with("\\end{enumerate}"));
}

#[test]
fn compile_prefixes_citation_labels() {
    let out = compile::compile_text(ONE_RECORD, &cli(false, false, false, "pre:")).expect("ok");
    assert!(out.contains("\\bibitem{pre:a}"));
}

#[test]
fn compile_includes_publisher_on_request() {
    let src = "@a{k, author = {A, B}, title = {T}, year = {2}, publisher = {Pub}}";
    let out = compile::compile_text(src, &cli(false, false, true, "")).expect("ok");
    assert!(out.contains("- Pub"));
}

#[test]
fn compile_of_empty_source_is_an_empty_environment() {
    let out = compile::compile_text("", &cli(false, false, false, "")).expect("ok");
    assert_eq!(out, "\\begin{thebibliography}{0}\n\n\\end{thebibliography}");
}

#[test]
fn strip_keeps_escaped_percent_and_cuts_the_comment() {
    assert_eq!(strip_tex_source("a \\% b % c"), "a \\% b");
}

#[test]
fn scanner_keeps_repeats_and_cleaning_removes_them() {
    let items = scan_document("\\cite{a, a}");
    let c = match &items[0] {
        ScanItem::Citation(c) => c,
        ScanItem::Include(_) => panic!("expected a citation"),
    };
    assert_eq!(c.keys, vec!["a".to_owned(), "a".to_owned()]);
    let cleaned = clean_cites(&vec![cite(&["a", "a"], CiteKind::Cite, "\\cite{a, a}")], &KeyMap::new());
    assert_eq!(cleaned[0].keys, vec!["a".to_owned()]);
}

#[test]
fn edit_distance_counts_one_substitution() {
    assert_eq!(edit_distance("abc", "axc"), 1);
}

#[test]
fn compile_reports_a_missing_field() {
    let src = "@a{k, title = {T}, year = {2000}}";
    let err = compile::compile_text(src, &cli(false, false, false, "")).unwrap_err();
    assert!(matches!(err, CompileError::MissingField { .. }));
}

#[test]
fn compile_reports_a_bad_year_only_when_sorting() {
    let src = "@a{k, author = {A, B}, title = {T}, year = {around 2000}}";
    let err = compile::compile_text(src, &cli(true, false, false, "")).unwrap_err();
    assert!(matches!(err, CompileError::BadYear { .. }));
    assert!(compile::compile_text(src, &cli(false, false, false, "")).is_ok());
}
