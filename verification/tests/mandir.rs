use manhtml::mandir::Catalogue;
use manhtml::mandir::Mandir;
use manhtml::mandir::MandirEntry;
use manhtml::mandir::MandirError;

fn sample_catalogue() -> Catalogue {
    Catalogue {
        sections: vec![
            ("1".to_string(), "User Commands".to_string()),
            ("3".to_string(), "Library Functions".to_string()),
        ],
        subsections: vec![
            ("1".to_string(), "User Commands".to_string()),
            ("1m".to_string(), "Maintenance Commands".to_string()),
        ],
    }
}

fn entry(name: &str, is_dir: bool) -> MandirEntry {
    MandirEntry {
        name: name.to_string(),
        is_dir,
    }
}

#[test]
fn index_lists_sections_with_titles() {
    let mut md = Mandir::new(sample_catalogue(), "/usr/bin/mandoc".to_string());
    md.add_mandir(
        "/usr/share/man".to_string(),
        vec![
            entry("man1m", true),
            entry("man1", true),
            entry("cat1", true),
            entry("man9", false),
            entry("man", true),
        ],
    );
    let toc = md.index().unwrap();
    assert_eq!(toc.len(), 1);
    assert_eq!(toc[0].name, "1");
    assert_eq!(toc[0].title.as_deref(), Some("User Commands"));
    assert_eq!(toc[0].subsections.len(), 2);
    assert_eq!(toc[0].subsections[0].name, "1");
    assert_eq!(
        toc[0].subsections[0].title.as_deref(),
        Some("User Commands")
    );
    assert_eq!(toc[0].subsections[1].name, "1m");
    assert_eq!(
        toc[0].subsections[1].title.as_deref(),
        Some("Maintenance Commands")
    );
}

#[test]
fn index_reports_missing_titles_as_none() {
    let mut md = Mandir::new(
        Catalogue {
            sections: Vec::new(),
            subsections: Vec::new(),
        },
        "/usr/bin/mandoc".to_string(),
    );
    md.add_mandir("/usr/share/man".to_string(), vec![entry("man7", true)]);
    let toc = md.index().unwrap();
    assert_eq!(toc.len(), 1);
    assert_eq!(toc[0].name, "7");
    assert_eq!(toc[0].title, None);
    assert_eq!(toc[0].subsections.len(), 1);
    assert_eq!(toc[0].subsections[0].name, "7");
    assert_eq!(toc[0].subsections[0].title, None);
}

#[test]
fn add_mandir_keeps_names_sorted_and_unique() {
    let mut md = Mandir::new(sample_catalogue(), "/usr/bin/mandoc".to_string());
    md.add_mandir(
        "/a".to_string(),
        vec![entry("man3", true), entry("man1", true)],
    );
    md.add_mandir(
        "/b".to_string(),
        vec![entry("man1", true), entry("man2", true)],
    );
    let toc = md.index().unwrap();
    let names: Vec<&str> = toc.iter().map(|s| s.name.as_str()).collect();
    assert_eq!(names, vec!["1", "2", "3"]);
}

#[test]
fn lookup_rejects_unknown_section() {
    let mut md = Mandir::new(sample_catalogue(), "/usr/bin/mandoc".to_string());
    md.add_mandir("/usr/share/man".to_string(), vec![entry("man1", true)]);
    assert_eq!(
        md.lookup(Some("9"), "ls"),
        Err(MandirError::UnknownSection)
    );
}

#[test]
fn lookup_rejects_page_with_separator() {
    let mut md = Mandir::new(sample_catalogue(), "/usr/bin/mandoc".to_string());
    md.add_mandir("/usr/share/man".to_string(), vec![entry("man1", true)]);
    assert_eq!(
        md.lookup(Some("1"), "../etc/passwd"),
        Err(MandirError::InvalidPage)
    );
}

#[test]
fn lookup_orders_candidates_by_directory_then_section() {
    let mut md = Mandir::new(sample_catalogue(), "/usr/bin/mandoc".to_string());
    md.add_mandir(
        "/a".to_string(),
        vec![entry("man1", true), entry("man1m", true)],
    );
    md.add_mandir("/b".to_string(), vec![entry("man1", true)]);
    let cands = md.lookup(None, "ls").unwrap();
    assert_eq!(
        cands,
        vec![
            "/a/man1/ls.1".to_string(),
            "/a/man1m/ls.1m".to_string(),
            "/b/man1/ls.1".to_string(),
            "/b/man1m/ls.1m".to_string(),
        ]
    );
}

#[test]
fn lookup_with_named_section_searches_only_it() {
    let mut md = Mandir::new(sample_catalogue(), "/usr/bin/mandoc".to_string());
    md.add_mandir(
        "/a".to_string(),
        vec![entry("man1", true), entry("man1m", true)],
    );
    let cands = md.lookup(Some("1m"), "fsck").unwrap();
    assert_eq!(cands, vec!["/a/man1m/fsck.1m".to_string()]);
}

#[test]
fn pages_strips_suffix_and_sorts() {
    let md = Mandir::new(sample_catalogue(), "/usr/bin/mandoc".to_string());
    let names = vec![
        "zsh.1".to_string(),
        "ls.1".to_string(),
        "awk.1".to_string(),
    ];
    assert_eq!(md.pages("1", names), vec!["awk", "ls", "zsh"]);
}

#[test]
fn pages_strips_repeated_suffix_and_keeps_duplicates() {
    let md = Mandir::new(sample_catalogue(), "/usr/bin/mandoc".to_string());
    let names = vec!["x.1.1".to_string(), "x.1".to_string(), "y".to_string()];
    assert_eq!(md.pages("1", names), vec!["x", "x", "y"]);
}
