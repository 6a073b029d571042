use fstree::args::{ColorChoice, InteractiveArgs, SortType, ViewArgs};
use fstree::sort;

#[test]
fn view_options_become_sort_options() {
    let args = ViewArgs {
        sort: SortType::Extension,
        dirs_first: true,
        reverse: true,
        ..ViewArgs::default()
    };
    let o = args.to_sort_options();
    assert_eq!(o.sort_type, sort::SortType::Extension);
    assert!(o.directories_first);
    assert!(o.reverse);
    assert!(!o.case_sensitive && !o.natural_sort && !o.dotfiles_first);
    assert_eq!(args.color, ColorChoice::Auto);
}

#[test]
fn interactive_options_become_sort_options() {
    let args = InteractiveArgs {
        path: ".".to_string(),
        all: false,
        gitignore: false,
        git_status: false,
        icons: false,
        size: false,
        permissions: false,
        expand_level: None,
        sort: SortType::Modified,
        dirs_first: false,
        case_sensitive: true,
        natural_sort: true,
        reverse: false,
        dotfiles_first: true,
    };
    let o = args.to_sort_options();
    assert_eq!(o.sort_type, sort::SortType::Modified);
    assert!(o.case_sensitive && o.natural_sort && o.dotfiles_first);
    assert!(!o.directories_first && !o.reverse);
    assert_eq!(SortType::Size.name(), "size");
    assert_eq!(ColorChoice::Never.name(), "never");
}
