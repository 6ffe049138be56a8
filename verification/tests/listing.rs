use mod_discovery::mods::{
    collect_records, ends_with_extension, is_descriptor_file, list_mods, Entry, ModInfo, Scan,
    DESCRIPTOR_EXTENSION,
};

fn file(name: &str, content: &str) -> Entry {
    Entry { file_name: name.to_string(), is_file: true, content: Some(content.to_string()) }
}

fn record(name: &str, path: &str, file: &str) -> ModInfo {
    ModInfo { name: name.to_string(), path: path.to_string(), file: file.to_string() }
}

fn sorted(mut mods: Vec<ModInfo>) -> Vec<(String, String, String)> {
    let mut keys: Vec<(String, String, String)> =
        mods.drain(..).map(|m| (m.name, m.path, m.file)).collect();
    keys.sort();
    keys
}

#[test]
fn record_without_path_has_empty_path() {
    let found = list_mods(Scan::Listed(vec![file("test.mod", "name=Alpha")]));
    assert_eq!(found, Ok(vec![record("Alpha", "", "test.mod")]));
}

#[test]
fn record_without_name_is_named_after_its_file() {
    let found = list_mods(Scan::Listed(vec![file("empty.mod", "")])).unwrap();
    assert_eq!(found.len(), 1);
    assert_eq!(found[0].name, "empty.mod");
    assert_eq!(found[0], record("empty.mod", "", "empty.mod"));
    let other = list_mods(Scan::Listed(vec![file("p.mod", "path = \"mod/p\"")])).unwrap();
    assert_eq!(other, vec![record("p.mod", "mod/p", "p.mod")]);
}

#[test]
fn only_descriptor_files_yield_records() {
    let found = list_mods(Scan::Listed(vec![
        file("notes.txt", "name=Not a mod"),
        file("real.mod", "name=Real\npath=mod/real"),
    ]));
    assert_eq!(found, Ok(vec![record("Real", "mod/real", "real.mod")]));
}

#[test]
fn missing_directory_yields_no_mods() {
    assert_eq!(list_mods(Scan::Missing), Ok(Vec::new()));
}

#[test]
fn unresolved_root_yields_no_mods() {
    assert_eq!(list_mods(Scan::Unresolved), Ok(Vec::new()));
}

#[test]
fn empty_directory_yields_no_mods() {
    assert_eq!(list_mods(Scan::Listed(Vec::new())), Ok(Vec::new()));
}

#[test]
fn failed_enumeration_is_passed_on() {
    assert_eq!(
        list_mods(Scan::Failed("permission denied".to_string())),
        Err("permission denied".to_string())
    );
    assert_eq!(list_mods(Scan::Failed(String::new())), Err(String::new()));
}

#[test]
fn unreadable_file_still_yields_a_record() {
    let entry = Entry { file_name: "locked.mod".to_string(), is_file: true, content: None };
    let found = list_mods(Scan::Listed(vec![entry]));
    assert_eq!(found, Ok(vec![record("locked.mod", "", "locked.mod")]));
}

#[test]
fn directories_are_skipped() {
    let dir = Entry {
        file_name: "folder.mod".to_string(),
        is_file: false,
        content: Some("name=Folder".to_string()),
    };
    assert_eq!(list_mods(Scan::Listed(vec![dir])), Ok(Vec::new()));
}

#[test]
fn records_keep_the_order_of_the_listing() {
    let entries = vec![
        file("z.mod", "name=Zulu"),
        file("readme.md", ""),
        file("a.MOD", "name=Alpha\npath=\"mod/a\""),
        file("m.Mod", "path=mod/m,"),
    ];
    let found = collect_records(&entries);
    assert_eq!(
        found,
        vec![
            record("Zulu", "", "z.mod"),
            record("Alpha", "mod/a", "a.MOD"),
            record("m.Mod", "mod/m", "m.Mod"),
        ]
    );
}

#[test]
fn same_entries_in_another_order_yield_the_same_records() {
    let a = file("a.mod", "name=Alpha");
    let b = file("b.mod", "name=Beta\npath=mod/b");
    let c = file("c.txt", "name=Gamma");
    let d = file("d.mod", "name=Alpha");
    let one = list_mods(Scan::Listed(vec![a.clone(), b.clone(), c.clone(), d.clone()])).unwrap();
    let two = list_mods(Scan::Listed(vec![d, c, b, a])).unwrap();
    assert_eq!(one.len(), 3);
    assert_eq!(sorted(one), sorted(two));
}

#[test]
fn same_listing_yields_the_same_records_again() {
    let entries = vec![file("a.mod", "name=Alpha"), file("b.mod", "")];
    assert_eq!(collect_records(&entries), collect_records(&entries));
}

#[test]
fn one_record_per_descriptor_file() {
    let entries = vec![
        file("a.mod", "garbage without separator"),
        file("b.mod", "name=\"unterminated"),
        Entry { file_name: "c.mod".to_string(), is_file: true, content: None },
        Entry { file_name: "d.mod".to_string(), is_file: false, content: None },
        file("e.txt", "name=E"),
        file(".mod", "name=Hidden"),
    ];
    let expected = entries.iter().filter(|e| is_descriptor_file(e.is_file, &e.file_name)).count();
    assert_eq!(expected, 3);
    assert_eq!(collect_records(&entries).len(), expected);
}

#[test]
fn record_from_descriptor_text() {
    let text = "version=\"1.0\"\nname = \"My Mod\"  # comment\npath=C:\\mods\\x,\n";
    assert_eq!(
        ModInfo::from_descriptor("my.mod", text),
        record("My Mod", "C:\\mods\\x", "my.mod")
    );
    assert_eq!(ModInfo::from_descriptor("", ""), record("", "", ""));
    assert_eq!(
        ModInfo::from_descriptor("x.mod", "NAME=Upper\nPath=p"),
        record("Upper", "p", "x.mod")
    );
}

#[test]
fn descriptor_extension_is_mod() {
    assert_eq!(DESCRIPTOR_EXTENSION, "mod");
}

#[test]
fn descriptor_names() {
    assert!(is_descriptor_file(true, "a.mod"));
    assert!(is_descriptor_file(true, "a.MOD"));
    assert!(is_descriptor_file(true, "a.mOd"));
    assert!(is_descriptor_file(true, "a.b.mod"));
    assert!(is_descriptor_file(true, "..mod"));
    assert!(is_descriptor_file(true, "\u{94a2}\u{94c1}.mod"));
    assert!(!is_descriptor_file(false, "a.mod"));
    assert!(!is_descriptor_file(true, ".mod"));
    assert!(!is_descriptor_file(true, "mod"));
    assert!(!is_descriptor_file(true, "amod"));
    assert!(!is_descriptor_file(true, "a.mod."));
    assert!(!is_descriptor_file(true, "a.mod.txt"));
    assert!(!is_descriptor_file(true, "a.mo"));
    assert!(!is_descriptor_file(true, "a.mods"));
    assert!(!is_descriptor_file(true, "a.m\u{f6}d"));
    assert!(!is_descriptor_file(true, ""));
    assert!(!is_descriptor_file(true, "."));
}

#[test]
fn extension_test_agrees_with_std_paths() {
    let names = [
        "a.mod", "a.MOD", ".mod", "..mod", "a..mod", "mod", "a.mod.", "a.b.mod", "a.modx", "x",
        "", "a.Mod", "archive.tar.mod", ".hidden.mod", "a.mo", "a.txt",
    ];
    let ext: Vec<char> = "mod".chars().collect();
    for name in names {
        let by_std = std::path::Path::new(name)
            .extension()
            .and_then(|e| e.to_str())
            .map(|e| e.eq_ignore_ascii_case("mod"))
            .unwrap_or(false);
        let given: Vec<char> = name.chars().collect();
        assert_eq!(ends_with_extension(&given, &ext), by_std, "{:?}", name);
        assert_eq!(is_descriptor_file(true, name), by_std, "{:?}", name);
    }
}

#[test]
fn extension_test_with_other_extensions() {
    let name: Vec<char> = "save.TXT".chars().collect();
    let txt: Vec<char> = "txt".chars().collect();
    let none: Vec<char> = Vec::new();
    assert!(ends_with_extension(&name, &txt));
    assert!(!ends_with_extension(&name, &none));
    let dotted: Vec<char> = "save.".chars().collect();
    assert!(ends_with_extension(&dotted, &none));
    assert!(!ends_with_extension(&none, &none));
    assert!(!ends_with_extension(&txt, &txt));
}
