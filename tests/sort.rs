use std::cmp::Ordering;

use fstree::sort::{
    char_sort_priority, compare_by_extension, compare_by_modified, compare_case_insensitive_str,
    compare_default_order, compare_entries, compare_natural, get_extension, is_dotfile,
    sort_entries, SortOptions, SortType,
};
use fstree::tree::WalkRecord;

fn rec(name: &str, depth: usize, is_dir: bool) -> WalkRecord {
    WalkRecord {
        path: name.to_string(),
        name: name.to_string(),
        depth,
        is_dir,
        len: None,
        modified: None,
        mode: None,
        status: None,
    }
}

fn names(v: &[WalkRecord]) -> Vec<String> {
    v.iter().map(|r| r.name.clone()).collect()
}

#[test]
fn test_case_insensitive_name_sorting() {
    let result = compare_case_insensitive_str("Apple", "banana");
    assert_eq!(result, Ordering::Less);
}

#[test]
fn test_case_sensitive_name_sorting() {
    let result = "Apple".cmp("banana");
    assert_eq!(result, Ordering::Less);
}

#[test]
fn sort_test_natural_sorting() {
    let result = compare_natural("file1.txt", "file10.txt", true);
    assert_eq!(result, Ordering::Less);
    let lexicographic = "file1.txt".cmp("file10.txt");
    assert_eq!(lexicographic, Ordering::Less);
    let natural_result = compare_natural("file2.txt", "file10.txt", true);
    let lexicographic_result = "file2.txt".cmp("file10.txt");
    assert_eq!(natural_result, Ordering::Less);
    assert_eq!(lexicographic_result, Ordering::Greater);
}

#[test]
fn test_extension_extraction() {
    assert_eq!(get_extension("file.txt"), "txt");
    assert_eq!(get_extension("file.tar.gz"), "gz");
    assert_eq!(get_extension("file"), "");
    assert_eq!(get_extension(".hidden"), "");
}

#[test]
fn test_sort_options_default() {
    let options = SortOptions::default();
    assert_eq!(options.sort_type, SortType::Name);
    assert!(!options.directories_first);
    assert!(!options.case_sensitive);
    assert!(!options.natural_sort);
    assert!(!options.reverse);
    assert!(!options.dotfiles_first);
}

#[test]
fn sort_test_reverse_sorting() {
    let normal = compare_case_insensitive_str("apple", "banana");
    assert_eq!(normal, Ordering::Less);
}

#[test]
fn sort_test_default_sort_order() {
    assert_eq!(compare_default_order("1file", "Afile"), Ordering::Less);
    assert_eq!(compare_default_order("Afile", "afile"), Ordering::Less);
    assert_eq!(compare_default_order("afile", "zfile"), Ordering::Less);
    assert_eq!(compare_default_order("1file", "2file"), Ordering::Less);
    assert_eq!(compare_default_order("Afile", "Bfile"), Ordering::Less);
    assert_eq!(compare_default_order("afile", "bfile"), Ordering::Less);
}

#[test]
fn test_char_sort_priority() {
    assert_eq!(char_sort_priority('0'), 0);
    assert_eq!(char_sort_priority('9'), 0);
    assert_eq!(char_sort_priority('A'), 1);
    assert_eq!(char_sort_priority('Z'), 1);
    assert_eq!(char_sort_priority('a'), 2);
    assert_eq!(char_sort_priority('z'), 2);
    assert_eq!(char_sort_priority('_'), 3);
    assert_eq!(char_sort_priority('-'), 3);
}

#[test]
fn test_is_dotfile() {
    assert!(is_dotfile(".hidden"));
    assert!(is_dotfile(".git"));
    assert!(!is_dotfile("visible.txt"));
    assert!(!is_dotfile("normal"));
}

#[test]
fn default_order_compares_by_length_on_a_prefix() {
    assert_eq!(compare_default_order("ab", "abc"), Ordering::Less);
    assert_eq!(compare_default_order("abc", "ab"), Ordering::Greater);
    assert_eq!(compare_default_order("ab", "ab"), Ordering::Equal);
    assert_eq!(compare_default_order("z", "_"), Ordering::Less);
}

#[test]
fn case_folding_makes_case_variants_equal() {
    assert_eq!(compare_case_insensitive_str("README", "readme"), Ordering::Equal);
    assert_eq!(compare_case_insensitive_str("b", "A"), Ordering::Greater);
}

#[test]
fn natural_sort_folds_case_unless_case_sensitive() {
    assert_eq!(compare_natural("File2", "file10", false), Ordering::Less);
    assert_eq!(compare_natural("file2", "File10", true), Ordering::Greater);
}

#[test]
fn unknown_modification_time_comes_first() {
    assert_eq!(compare_by_modified(None, Some(5)), Ordering::Less);
    assert_eq!(compare_by_modified(Some(5), None), Ordering::Greater);
    assert_eq!(compare_by_modified(None, None), Ordering::Equal);
    assert_eq!(compare_by_modified(Some(3), Some(5)), Ordering::Less);
    assert_eq!(compare_by_modified(Some(-3), Some(-5)), Ordering::Greater);
}

#[test]
fn equal_extensions_fall_back_to_the_name() {
    let options = SortOptions { sort_type: SortType::Extension, ..SortOptions::default() };
    assert_eq!(compare_by_extension("b.txt", "a.txt", &options), Ordering::Greater);
    assert_eq!(compare_by_extension("z.aaa", "a.bbb", &options), Ordering::Less);
    assert_eq!(compare_by_extension("x.TXT", "x.txt", &options), Ordering::Equal);
    let sensitive = SortOptions { case_sensitive: true, ..options };
    assert_eq!(compare_by_extension("x.TXT", "x.txt", &sensitive), Ordering::Less);
}

#[test]
fn size_treats_directories_as_empty() {
    let options = SortOptions { sort_type: SortType::Size, ..SortOptions::default() };
    let mut dir = rec("d", 1, true);
    dir.len = Some(4096);
    let mut file = rec("f", 1, false);
    file.len = Some(10);
    assert_eq!(compare_entries(&dir, &file, &options), Ordering::Less);
    let unknown = rec("u", 1, false);
    assert_eq!(compare_entries(&unknown, &dir, &options), Ordering::Equal);
}

#[test]
fn reverse_inverts_the_whole_comparison() {
    let options = SortOptions { directories_first: true, reverse: true, ..SortOptions::default() };
    let dir = rec("z", 1, true);
    let file = rec("a", 1, false);
    assert_eq!(compare_entries(&dir, &file, &options), Ordering::Greater);
}

#[test]
fn natural_sort_orders_digit_runs_by_value() {
    let options = SortOptions { natural_sort: true, ..SortOptions::default() };
    let mut v = vec![rec("file10.txt", 1, false), rec("file2.txt", 1, false), rec("file1.txt", 1, false)];
    sort_entries(&mut v, &options);
    assert_eq!(names(&v), vec!["file1.txt", "file2.txt", "file10.txt"]);
    let plain = SortOptions::default();
    sort_entries(&mut v, &plain);
    assert_eq!(names(&v), vec!["file1.txt", "file10.txt", "file2.txt"]);
}

#[test]
fn dotfiles_first_orders_four_groups() {
    let options = SortOptions { dotfiles_first: true, ..SortOptions::default() };
    let mut v = vec![
        rec("visible.txt", 1, false),
        rec(".hidden.txt", 1, false),
        rec("visible_dir", 1, true),
        rec(".hidden_dir", 1, true),
    ];
    sort_entries(&mut v, &options);
    assert_eq!(names(&v), vec![".hidden_dir", "visible_dir", ".hidden.txt", "visible.txt"]);
}

#[test]
fn sorting_twice_changes_nothing() {
    let options = SortOptions { directories_first: true, ..SortOptions::default() };
    let mut v = vec![rec("b", 1, false), rec("C", 1, true), rec("a", 1, false), rec("B", 1, false)];
    sort_entries(&mut v, &options);
    let once = names(&v);
    assert_eq!(once, vec!["C", "a", "b", "B"]);
    sort_entries(&mut v, &options);
    assert_eq!(names(&v), once);
}

#[test]
fn sort_is_stable_for_equal_entries() {
    let options = SortOptions::default();
    let mut v = vec![rec("b", 1, false), rec("B", 1, false), rec("a", 1, false)];
    v[0].path = "first".to_string();
    v[1].path = "second".to_string();
    sort_entries(&mut v, &options);
    assert_eq!(v[1].path, "first");
    assert_eq!(v[2].path, "second");
}

#[test]
fn reverse_gives_the_reversed_order() {
    let forward = SortOptions::default();
    let backward = SortOptions { reverse: true, ..forward };
    let input = vec![rec("m", 1, false), rec("c", 1, false), rec("x", 1, false), rec("a", 1, false)];
    let mut a: Vec<WalkRecord> = input.iter().map(|r| rec(&r.name, 1, false)).collect();
    let mut b: Vec<WalkRecord> = input.iter().map(|r| rec(&r.name, 1, false)).collect();
    sort_entries(&mut a, &forward);
    sort_entries(&mut b, &backward);
    let mut reversed = names(&b);
    reversed.reverse();
    assert_eq!(names(&a), reversed);
    assert_eq!(names(&a), vec!["a", "c", "m", "x"]);
}
