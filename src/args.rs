//! Options of the two ways of showing a tree: the static listing and the
//! interactive explorer.

use vstd::prelude::*;
use crate::sort;

verus! {

/// Options of the whole program: a subcommand, or the static listing.
pub struct Args {
    /// The subcommand to run; without one the static listing is shown.
    pub command: Option<Commands>,
    /// Options of the static listing, used when there is no subcommand.
    pub view: ViewArgs,
}

/// The available subcommands.
pub enum Commands {
    /// The interactive explorer.
    Interactive(InteractiveArgs),
}

/// Options of the static listing.
#[derive(Default)]
pub struct ViewArgs {
    /// The directory to show.
    pub path: String,
    /// When to use colorized output.
    pub color: ColorChoice,
    /// Maximum depth to descend.
    pub level: Option<usize>,
    /// Show directories only.
    pub dirs_only: bool,
    /// Show the size of files.
    pub size: bool,
    /// Show permissions.
    pub permissions: bool,
    /// Show hidden entries too.
    pub all: bool,
    /// Respect ignore files.
    pub gitignore: bool,
    /// Show version-control status.
    pub git_status: bool,
    /// Show icons.
    pub icons: bool,
    /// Render file paths as hyperlinks.
    pub hyperlinks: bool,
    /// The primary sort key.
    pub sort: SortType,
    /// Sort directories before files.
    pub dirs_first: bool,
    /// Compare names case-sensitively.
    pub case_sensitive: bool,
    /// Compare digit runs as numbers.
    pub natural_sort: bool,
    /// Reverse the order.
    pub reverse: bool,
    /// Sort dotfiles and dotfolders first.
    pub dotfiles_first: bool,
}

/// Options of the interactive explorer.
pub struct InteractiveArgs {
    /// The directory to explore.
    pub path: String,
    /// Show hidden entries too.
    pub all: bool,
    /// Respect ignore files.
    pub gitignore: bool,
    /// Show version-control status.
    pub git_status: bool,
    /// Show icons.
    pub icons: bool,
    /// Show the size of files.
    pub size: bool,
    /// Show permissions.
    pub permissions: bool,
    /// Expand directories above this depth at the start.
    pub expand_level: Option<usize>,
    /// The primary sort key.
    pub sort: SortType,
    /// Sort directories before files.
    pub dirs_first: bool,
    /// Compare names case-sensitively.
    pub case_sensitive: bool,
    /// Compare digit runs as numbers.
    pub natural_sort: bool,
    /// Reverse the order.
    pub reverse: bool,
    /// Sort dotfiles and dotfolders first.
    pub dotfiles_first: bool,
}

/// The sort keys that can be asked for.
#[derive(Copy, Clone, Debug, PartialEq, Eq, Default, Structural)]
pub enum SortType {
    #[default]
    Name,
    Size,
    Modified,
    Extension,
}

/// When to use colorized output.
#[derive(Copy, Clone, Debug, PartialEq, Eq, Default, Structural)]
pub enum ColorChoice {
    Always,
    #[default]
    Auto,
    Never,
}

pub open spec fn sort_type_of(t: SortType) -> sort::SortType {
    match t {
        SortType::Name => sort::SortType::Name,
        SortType::Size => sort::SortType::Size,
        SortType::Modified => sort::SortType::Modified,
        SortType::Extension => sort::SortType::Extension,
    }
}

impl From<SortType> for sort::SortType {
    fn from(t: SortType) -> sort::SortType {
        match t {
            SortType::Name => sort::SortType::Name,
            SortType::Size => sort::SortType::Size,
            SortType::Modified => sort::SortType::Modified,
            SortType::Extension => sort::SortType::Extension,
        }
    }
}

impl vstd::std_specs::convert::FromSpecImpl<SortType> for sort::SortType {
    open spec fn obeys_from_spec() -> bool {
        true
    }

    open spec fn from_spec(t: SortType) -> sort::SortType {
        sort_type_of(t)
    }
}

impl SortType {
    /// The name by which the key is asked for.
    pub fn name(&self) -> (r: &'static str)
        ensures
            r@ == (match *self {
                SortType::Name => "name"@,
                SortType::Size => "size"@,
                SortType::Modified => "modified"@,
                SortType::Extension => "extension"@,
            }),
    {
        match self {
            SortType::Name => "name",
            SortType::Size => "size",
            SortType::Modified => "modified",
            SortType::Extension => "extension",
        }
    }
}

impl ColorChoice {
    /// The name by which the choice is asked for.
    pub fn name(&self) -> (r: &'static str)
        ensures
            r@ == (match *self {
                ColorChoice::Always => "always"@,
                ColorChoice::Auto => "auto"@,
                ColorChoice::Never => "never"@,
            }),
    {
        match self {
            ColorChoice::Always => "always",
            ColorChoice::Auto => "auto",
            ColorChoice::Never => "never",
        }
    }
}

pub open spec fn options_of(
    sort: SortType,
    dirs_first: bool,
    case_sensitive: bool,
    natural_sort: bool,
    reverse: bool,
    dotfiles_first: bool,
) -> sort::SortOptions {
    sort::SortOptions {
        sort_type: sort_type_of(sort),
        directories_first: dirs_first,
        case_sensitive,
        natural_sort,
        reverse,
        dotfiles_first,
    }
}

impl ViewArgs {
    /// The sort configuration these options ask for.
    pub fn to_sort_options(&self) -> (r: sort::SortOptions)
        ensures
            r == options_of(
                self.sort,
                self.dirs_first,
                self.case_sensitive,
                self.natural_sort,
                self.reverse,
                self.dotfiles_first,
            ),
    {
        sort::SortOptions {
            sort_type: sort::SortType::from(self.sort),
            directories_first: self.dirs_first,
            case_sensitive: self.case_sensitive,
            natural_sort: self.natural_sort,
            reverse: self.reverse,
            dotfiles_first: self.dotfiles_first,
        }
    }
}

impl InteractiveArgs {
    /// The sort configuration these options ask for.
    pub fn to_sort_options(&self) -> (r: sort::SortOptions)
        ensures
            r == options_of(
                self.sort,
                self.dirs_first,
                self.case_sensitive,
                self.natural_sort,
                self.reverse,
                self.dotfiles_first,
            ),
    {
        sort::SortOptions {
            sort_type: sort::SortType::from(self.sort),
            directories_first: self.dirs_first,
            case_sensitive: self.case_sensitive,
            natural_sort: self.natural_sort,
            reverse: self.reverse,
            dotfiles_first: self.dotfiles_first,
        }
    }
}

} // verus!
