//! The ordering of sibling entries: a comparator over entries built from a
//! configuration, and a stable sort by it.

use vstd::prelude::*;
use core::cmp::Ordering;
use crate::tree::WalkRecord;

verus! {

/// Defines the available sorting strategies.
#[derive(Debug, Clone, Copy, PartialEq, Eq, Structural)]
pub enum SortType {
    /// Sort by name (default)
    Name,
    /// Sort by file size
    Size,
    /// Sort by modification time
    Modified,
    /// Sort by file extension
    Extension,
}

impl Default for SortType {
    fn default() -> (r: Self)
        ensures
            r == SortType::Name,
    {
        SortType::Name
    }
}

/// Configuration options for sorting directory entries.
#[derive(Debug, Clone, Copy, PartialEq, Eq, Structural)]
pub struct SortOptions {
    /// The primary sorting strategy
    pub sort_type: SortType,
    /// Whether to sort directories before files
    pub directories_first: bool,
    /// Whether to use case-sensitive name sorting
    pub case_sensitive: bool,
    /// Whether to use natural/version sorting (e.g., file1 < file10)
    pub natural_sort: bool,
    /// Whether to reverse the sort order
    pub reverse: bool,
    /// Whether to sort dotfiles/dotfolders first
    pub dotfiles_first: bool,
}

impl Default for SortOptions {
    fn default() -> (r: Self)
        ensures
            r == (SortOptions {
                sort_type: SortType::Name,
                directories_first: false,
                case_sensitive: false,
                natural_sort: false,
                reverse: false,
                dotfiles_first: false,
            }),
    {
        SortOptions {
            sort_type: SortType::Name,
            directories_first: false,
            case_sensitive: false,
            natural_sort: false,
            reverse: false,
            dotfiles_first: false,
        }
    }
}

/// What `str::to_lowercase` makes of a string.
pub uninterp spec fn lower_of(s: Seq<char>) -> Seq<char>;

/// What `natord::compare` returns for two strings.
pub uninterp spec fn natural_order(a: Seq<char>, b: Seq<char>) -> Ordering;

/// Relies on `str::to_lowercase`: its result depends on the characters of
/// the string alone.
#[verifier::external_body]
fn to_lower(s: &str) -> (r: String)
    ensures
        r@ == lower_of(s@),
{
    s.to_lowercase()
}

/// Relies on `natord::compare`: a natural-order comparison whose result
/// depends on the two strings alone.
#[verifier::external_body]
fn natord_compare(a: &str, b: &str) -> (r: Ordering)
    ensures
        r == natural_order(a@, b@),
{
    natord::compare(a, b)
}

pub open spec fn cmp_int(x: int, y: int) -> Ordering {
    if x < y {
        Ordering::Less
    } else if x > y {
        Ordering::Greater
    } else {
        Ordering::Equal
    }
}

pub open spec fn flip(o: Ordering) -> Ordering {
    match o {
        Ordering::Less => Ordering::Greater,
        Ordering::Equal => Ordering::Equal,
        Ordering::Greater => Ordering::Less,
    }
}

/// Sort priority of a character: ASCII digits 0, ASCII uppercase 1, ASCII
/// lowercase 2, everything else 3.
pub open spec fn char_class(c: char) -> u8 {
    if '0' <= c && c <= '9' {
        0
    } else if 'A' <= c && c <= 'Z' {
        1
    } else if 'a' <= c && c <= 'z' {
        2
    } else {
        3
    }
}

/// Order of two characters: by code point, or, with `by_class`, first by
/// their sort priority and then by code point.
pub open spec fn char_order(x: char, y: char, by_class: bool) -> Ordering {
    if by_class && char_class(x) != char_class(y) {
        cmp_int(char_class(x) as int, char_class(y) as int)
    } else {
        cmp_int(x as int, y as int)
    }
}

/// Compares `a` and `b` from position `i` on: the first position where the
/// characters differ decides by `char_order`; where one is a prefix of the
/// other, the shorter comes first.
pub open spec fn lex_from(a: Seq<char>, b: Seq<char>, i: int, by_class: bool) -> Ordering
    decreases a.len() - i,
{
    if i >= a.len() || i >= b.len() {
        cmp_int(a.len() as int, b.len() as int)
    } else if char_order(a[i], b[i], by_class) != Ordering::Equal {
        char_order(a[i], b[i], by_class)
    } else {
        lex_from(a, b, i + 1, by_class)
    }
}

/// Plain lexicographic order of two strings by code point.
pub open spec fn lex_order(a: Seq<char>, b: Seq<char>) -> Ordering {
    lex_from(a, b, 0, false)
}

/// The case-sensitive default order: position by position, digits before
/// uppercase before lowercase before anything else, then by length.
pub open spec fn class_order(a: Seq<char>, b: Seq<char>) -> Ordering {
    lex_from(a, b, 0, true)
}

pub open spec fn is_dot_name(name: Seq<char>) -> bool {
    name.len() > 0 && name[0] == '.'
}

/// The largest position before `n` that holds a `.`, or -1.
pub open spec fn last_dot_before(name: Seq<char>, n: int) -> int
    decreases n,
{
    if n <= 0 {
        -1
    } else if name[n - 1] == '.' {
        n - 1
    } else {
        last_dot_before(name, n - 1)
    }
}

/// The extension of a file name: what follows its last `.`, where that dot
/// is not the first character; empty otherwise.
pub open spec fn extension_of(name: Seq<char>) -> Seq<char> {
    let p = last_dot_before(name, name.len() as int);
    if p > 0 {
        name.subrange(p + 1, name.len() as int)
    } else {
        Seq::empty()
    }
}

/// Size used for ordering: 0 for a directory or for an entry whose size is
/// unknown.
pub open spec fn size_key(e: WalkRecord) -> u64 {
    if e.is_dir {
        0
    } else {
        match e.len {
            Some(n) => n,
            None => 0,
        }
    }
}

/// Four-way priority of the dotfile rule: dot-directories, directories,
/// dot-files, files.
pub open spec fn dot_rank(e: WalkRecord) -> int {
    if e.is_dir {
        if is_dot_name(e.name@) {
            0
        } else {
            1
        }
    } else {
        if is_dot_name(e.name@) {
            2
        } else {
            3
        }
    }
}

pub open spec fn dir_rank(e: WalkRecord) -> int {
    if e.is_dir {
        0
    } else {
        1
    }
}

pub open spec fn name_order(a: Seq<char>, b: Seq<char>, o: SortOptions) -> Ordering {
    if o.natural_sort {
        if o.case_sensitive {
            natural_order(a, b)
        } else {
            natural_order(lower_of(a), lower_of(b))
        }
    } else if o.case_sensitive {
        class_order(a, b)
    } else {
        lex_order(lower_of(a), lower_of(b))
    }
}

/// Entries with an unknown modification time come first; two unknown
/// times are equal.
pub open spec fn modified_order(a: Option<i128>, b: Option<i128>) -> Ordering {
    match (a, b) {
        (Some(x), Some(y)) => cmp_int(x as int, y as int),
        (None, Some(_)) => Ordering::Less,
        (Some(_), None) => Ordering::Greater,
        (None, None) => Ordering::Equal,
    }
}

pub open spec fn extension_order(a: Seq<char>, b: Seq<char>, o: SortOptions) -> Ordering {
    let ea = extension_of(a);
    let eb = extension_of(b);
    let by_ext = if o.case_sensitive {
        lex_order(ea, eb)
    } else {
        lex_order(lower_of(ea), lower_of(eb))
    };
    if by_ext == Ordering::Equal {
        name_order(a, b, o)
    } else {
        by_ext
    }
}

pub open spec fn primary_order(a: WalkRecord, b: WalkRecord, o: SortOptions) -> Ordering {
    match o.sort_type {
        SortType::Name => name_order(a.name@, b.name@, o),
        SortType::Size => cmp_int(size_key(a) as int, size_key(b) as int),
        SortType::Modified => modified_order(a.modified, b.modified),
        SortType::Extension => extension_order(a.name@, b.name@, o),
    }
}

/// The grouping that comes before the primary key: the dotfile rule, else
/// directories first, else none.
pub open spec fn group_order(a: WalkRecord, b: WalkRecord, o: SortOptions) -> Ordering {
    if o.dotfiles_first {
        cmp_int(dot_rank(a), dot_rank(b))
    } else if o.directories_first {
        cmp_int(dir_rank(a), dir_rank(b))
    } else {
        Ordering::Equal
    }
}

pub open spec fn forward_order(a: WalkRecord, b: WalkRecord, o: SortOptions) -> Ordering {
    let g = group_order(a, b, o);
    if g != Ordering::Equal {
        g
    } else {
        primary_order(a, b, o)
    }
}

/// The order of two sibling entries under a configuration; `reverse`
/// inverts the whole comparison.
pub open spec fn entry_order(a: WalkRecord, b: WalkRecord, o: SortOptions) -> Ordering {
    if o.reverse {
        flip(forward_order(a, b, o))
    } else {
        forward_order(a, b, o)
    }
}

pub open spec fn is_le(o: Ordering) -> bool {
    o != Ordering::Greater
}

proof fn lemma_lex_refl(a: Seq<char>, i: int, by_class: bool)
    requires
        0 <= i <= a.len(),
    ensures
        lex_from(a, a, i, by_class) == Ordering::Equal,
    decreases a.len() - i,
{
    if i < a.len() {
        lemma_lex_refl(a, i + 1, by_class);
    }
}

proof fn lemma_lex_flip(a: Seq<char>, b: Seq<char>, i: int, by_class: bool)
    requires
        0 <= i <= a.len(),
        i <= b.len(),
    ensures
        lex_from(a, b, i, by_class) == flip(lex_from(b, a, i, by_class)),
    decreases a.len() - i,
{
    if i < a.len() && i < b.len() {
        if char_order(a[i], b[i], by_class) == Ordering::Equal {
            lemma_lex_flip(a, b, i + 1, by_class);
        }
    }
}

proof fn lemma_char_eq(x: char, y: char, by_class: bool)
    requires
        char_order(x, y, by_class) == Ordering::Equal,
    ensures
        x == y,
{
    assert(x as int == y as int);
}

proof fn lemma_lex_trans(a: Seq<char>, b: Seq<char>, c: Seq<char>, i: int, by_class: bool)
    requires
        0 <= i <= a.len(),
        i <= b.len(),
        i <= c.len(),
        is_le(lex_from(a, b, i, by_class)),
        is_le(lex_from(b, c, i, by_class)),
    ensures
        is_le(lex_from(a, c, i, by_class)),
    decreases a.len() - i,
{
    if i < a.len() && i < b.len() && i < c.len() {
        if char_order(a[i], b[i], by_class) == Ordering::Equal && char_order(b[i], c[i], by_class)
            == Ordering::Equal {
            lemma_char_eq(a[i], b[i], by_class);
            lemma_char_eq(b[i], c[i], by_class);
            lemma_lex_trans(a, b, c, i + 1, by_class);
        }
    }
}

/// The facts that make `cmp` a total preorder on `a`, `b` and `c`: each
/// entry is equal to itself, swapping the arguments flips the result, and
/// "not after" is transitive.
pub open spec fn total_preorder_at(a: WalkRecord, b: WalkRecord, c: WalkRecord, o: SortOptions) -> bool {
    &&& entry_order(a, a, o) == Ordering::Equal
    &&& entry_order(a, b, o) == flip(entry_order(b, a, o))
    &&& (is_le(entry_order(a, b, o)) && is_le(entry_order(b, c, o))) ==> is_le(entry_order(a, c, o))
}

proof fn lemma_lex_all(x: Seq<char>, y: Seq<char>, z: Seq<char>, by_class: bool)
    ensures
        lex_from(x, x, 0, by_class) == Ordering::Equal,
        lex_from(x, y, 0, by_class) == flip(lex_from(y, x, 0, by_class)),
        lex_from(y, z, 0, by_class) == flip(lex_from(z, y, 0, by_class)),
        lex_from(x, z, 0, by_class) == flip(lex_from(z, x, 0, by_class)),
        (is_le(lex_from(x, y, 0, by_class)) && is_le(lex_from(y, z, 0, by_class))) ==> is_le(
            lex_from(x, z, 0, by_class),
        ),
        (is_le(lex_from(y, x, 0, by_class)) && is_le(lex_from(x, z, 0, by_class))) ==> is_le(
            lex_from(y, z, 0, by_class),
        ),
        (is_le(lex_from(x, z, 0, by_class)) && is_le(lex_from(z, y, 0, by_class))) ==> is_le(
            lex_from(x, y, 0, by_class),
        ),
{
    lemma_lex_refl(x, 0, by_class);
    lemma_lex_flip(x, y, 0, by_class);
    lemma_lex_flip(y, z, 0, by_class);
    lemma_lex_flip(x, z, 0, by_class);
    if is_le(lex_from(x, y, 0, by_class)) && is_le(lex_from(y, z, 0, by_class)) {
        lemma_lex_trans(x, y, z, 0, by_class);
    }
    if is_le(lex_from(y, x, 0, by_class)) && is_le(lex_from(x, z, 0, by_class)) {
        lemma_lex_trans(y, x, z, 0, by_class);
    }
    if is_le(lex_from(x, z, 0, by_class)) && is_le(lex_from(z, y, 0, by_class)) {
        lemma_lex_trans(x, z, y, 0, by_class);
    }
}

proof fn lemma_name_order(a: Seq<char>, b: Seq<char>, c: Seq<char>, o: SortOptions)
    requires
        !o.natural_sort,
    ensures
        name_order(a, a, o) == Ordering::Equal,
        name_order(a, b, o) == flip(name_order(b, a, o)),
        name_order(b, c, o) == flip(name_order(c, b, o)),
        name_order(a, c, o) == flip(name_order(c, a, o)),
        (is_le(name_order(a, b, o)) && is_le(name_order(b, c, o))) ==> is_le(name_order(a, c, o)),
{
    if o.case_sensitive {
        lemma_lex_all(a, b, c, true);
    } else {
        lemma_lex_all(lower_of(a), lower_of(b), lower_of(c), false);
    }
}

proof fn lemma_ext_part(x: Seq<char>, y: Seq<char>, z: Seq<char>, o: SortOptions)
    ensures
        ({
            let f = |p: Seq<char>, q: Seq<char>|
                if o.case_sensitive {
                    lex_order(extension_of(p), extension_of(q))
                } else {
                    lex_order(lower_of(extension_of(p)), lower_of(extension_of(q)))
                };
            &&& f(x, x) == Ordering::Equal
            &&& f(x, y) == flip(f(y, x))
            &&& (is_le(f(x, y)) && is_le(f(y, z))) ==> is_le(f(x, z))
        }),
{
    let (ea, eb, ec) = (extension_of(x), extension_of(y), extension_of(z));
    if o.case_sensitive {
        lemma_lex_all(ea, eb, ec, false);
    } else {
        lemma_lex_all(lower_of(ea), lower_of(eb), lower_of(ec), false);
    }
}

proof fn lemma_primary_order(a: WalkRecord, b: WalkRecord, c: WalkRecord, o: SortOptions)
    requires
        !o.natural_sort,
    ensures
        primary_order(a, a, o) == Ordering::Equal,
        primary_order(a, b, o) == flip(primary_order(b, a, o)),
        (is_le(primary_order(a, b, o)) && is_le(primary_order(b, c, o))) ==> is_le(
            primary_order(a, c, o),
        ),
{
    match o.sort_type {
        SortType::Name => {
            lemma_name_order(a.name@, b.name@, c.name@, o);
        },
        SortType::Size => {},
        SortType::Modified => {},
        SortType::Extension => {
            let (x, y, z) = (a.name@, b.name@, c.name@);
            lemma_name_order(x, y, z, o);
            lemma_name_order(y, z, x, o);
            lemma_name_order(z, x, y, o);
            lemma_name_order(x, z, y, o);
            lemma_name_order(y, x, z, o);
            lemma_name_order(z, y, x, o);
            lemma_ext_part(x, y, z, o);
            lemma_ext_part(y, z, x, o);
            lemma_ext_part(z, x, y, o);
            lemma_ext_part(x, z, y, o);
            lemma_ext_part(y, x, z, o);
            lemma_ext_part(z, y, x, o);
        },
    }
}

/// Without natural sort, the order of entries is a total preorder for every
/// configuration: reflexive, flipped by swapping its arguments, and
/// transitive.
pub proof fn lemma_entry_order_total(a: WalkRecord, b: WalkRecord, c: WalkRecord, o: SortOptions)
    requires
        !o.natural_sort,
    ensures
        total_preorder_at(a, b, c, o),
{
    lemma_primary_order(a, b, c, o);
    lemma_primary_order(b, c, a, o);
    lemma_primary_order(c, a, b, o);
    lemma_primary_order(a, c, b, o);
    lemma_primary_order(b, a, c, o);
    lemma_primary_order(c, b, a, o);
}

/// Returns sort priority for a character: numbers (0), uppercase (1),
/// lowercase (2), others (3).
pub fn char_sort_priority(c: char) -> (r: u8)
    ensures
        r == char_class(c),
{
    if '0' <= c && c <= '9' {
        0
    } else if 'A' <= c && c <= 'Z' {
        1
    } else if 'a' <= c && c <= 'z' {
        2
    } else {
        3
    }
}

fn compare_u64(x: u64, y: u64) -> (r: Ordering)
    ensures
        r == cmp_int(x as int, y as int),
{
    if x < y {
        Ordering::Less
    } else if x > y {
        Ordering::Greater
    } else {
        Ordering::Equal
    }
}

fn compare_char(x: char, y: char, by_class: bool) -> (r: Ordering)
    ensures
        r == char_order(x, y, by_class),
{
    if by_class {
        let px = char_sort_priority(x);
        let py = char_sort_priority(y);
        if px != py {
            return compare_u64(px as u64, py as u64);
        }
    }
    compare_u64(x as u64, y as u64)
}

fn compare_chars(a: &str, b: &str, by_class: bool) -> (r: Ordering)
    ensures
        r == lex_from(a@, b@, 0, by_class),
{
    let la = a.unicode_len();
    let lb = b.unicode_len();
    let mut i: usize = 0;
    while i < la && i < lb
        invariant
            i <= la,
            i <= lb,
            la == a@.len(),
            lb == b@.len(),
            lex_from(a@, b@, 0, by_class) == lex_from(a@, b@, i as int, by_class),
        decreases la - i,
    {
        let o = compare_char(a.get_char(i), b.get_char(i), by_class);
        match o {
            Ordering::Equal => {},
            _ => {
                return o;
            },
        }
        i = i + 1;
    }
    compare_u64(la as u64, lb as u64)
}

/// Implements the default sort order: numbers first, then uppercase, then
/// lowercase, then everything else, position by position; then by length.
pub fn compare_default_order(a: &str, b: &str) -> (r: Ordering)
    ensures
        r == class_order(a@, b@),
{
    compare_chars(a, b, true)
}

/// Compares two strings after folding both to lower case.
pub fn compare_case_insensitive_str(a: &str, b: &str) -> (r: Ordering)
    ensures
        r == lex_order(lower_of(a@), lower_of(b@)),
{
    let la = to_lower(a);
    let lb = to_lower(b);
    compare_chars(la.as_str(), lb.as_str(), false)
}

/// Natural-order comparison, with case folded first unless `case_sensitive`.
pub fn compare_natural(a: &str, b: &str, case_sensitive: bool) -> (r: Ordering)
    ensures
        r == (if case_sensitive {
            natural_order(a@, b@)
        } else {
            natural_order(lower_of(a@), lower_of(b@))
        }),
{
    if case_sensitive {
        natord_compare(a, b)
    } else {
        let la = to_lower(a);
        let lb = to_lower(b);
        natord_compare(la.as_str(), lb.as_str())
    }
}

/// Checks whether a name is that of a dotfile or dotfolder.
pub fn is_dotfile(name: &str) -> (r: bool)
    ensures
        r == is_dot_name(name@),
{
    name.unicode_len() > 0 && name.get_char(0) == '.'
}

/// Extracts the file extension from a name, empty where there is none.
pub fn get_extension(name: &str) -> (r: String)
    ensures
        r@ == extension_of(name@),
{
    let n = name.unicode_len();
    let mut i: usize = n;
    while i > 0 && name.get_char(i - 1) != '.'
        invariant
            i <= n,
            n == name@.len(),
            last_dot_before(name@, n as int) == last_dot_before(name@, i as int),
        decreases i,
    {
        i = i - 1;
    }
    if i > 1 {
        name.substring_char(i, n).to_string()
    } else {
        String::new()
    }
}

/// Gets the size of an entry for ordering, 0 for directories.
pub fn get_entry_size(e: &WalkRecord) -> (r: u64)
    ensures
        r == size_key(*e),
{
    if e.is_dir {
        0
    } else {
        match e.len {
            Some(n) => n,
            None => 0,
        }
    }
}

/// Compares entries by name, handling case sensitivity and natural sorting.
pub fn compare_by_name(a: &str, b: &str, options: &SortOptions) -> (r: Ordering)
    ensures
        r == name_order(a@, b@, *options),
{
    if options.natural_sort {
        compare_natural(a, b, options.case_sensitive)
    } else if options.case_sensitive {
        compare_default_order(a, b)
    } else {
        compare_case_insensitive_str(a, b)
    }
}

/// Compares entries by modification time; unknown times come first.
pub fn compare_by_modified(a: Option<i128>, b: Option<i128>) -> (r: Ordering)
    ensures
        r == modified_order(a, b),
{
    match (a, b) {
        (Some(x), Some(y)) => {
            if x < y {
                Ordering::Less
            } else if x > y {
                Ordering::Greater
            } else {
                Ordering::Equal
            }
        },
        (None, Some(_)) => Ordering::Less,
        (Some(_), None) => Ordering::Greater,
        (None, None) => Ordering::Equal,
    }
}

/// Compares entries by file extension, falling back to the name order.
pub fn compare_by_extension(a: &str, b: &str, options: &SortOptions) -> (r: Ordering)
    ensures
        r == extension_order(a@, b@, *options),
{
    let ea = get_extension(a);
    let eb = get_extension(b);
    let by_ext = if options.case_sensitive {
        compare_chars(ea.as_str(), eb.as_str(), false)
    } else {
        compare_case_insensitive_str(ea.as_str(), eb.as_str())
    };
    match by_ext {
        Ordering::Equal => compare_by_name(a, b, options),
        _ => by_ext,
    }
}

/// Compares two entries under the configuration, `reverse` included.
pub fn compare_entries(a: &WalkRecord, b: &WalkRecord, options: &SortOptions) -> (r: Ordering)
    ensures
        r == entry_order(*a, *b, *options),
{
    let forward = compare_forward(a, b, options);
    if options.reverse {
        match forward {
            Ordering::Less => Ordering::Greater,
            Ordering::Equal => Ordering::Equal,
            Ordering::Greater => Ordering::Less,
        }
    } else {
        forward
    }
}

fn rank_of(e: &WalkRecord, dotfiles: bool) -> (r: u64)
    ensures
        r as int == (if dotfiles {
            dot_rank(*e)
        } else {
            dir_rank(*e)
        }),
{
    if dotfiles {
        let dot = is_dotfile(e.name.as_str());
        if e.is_dir {
            if dot {
                0
            } else {
                1
            }
        } else {
            if dot {
                2
            } else {
                3
            }
        }
    } else if e.is_dir {
        0
    } else {
        1
    }
}

fn compare_forward(a: &WalkRecord, b: &WalkRecord, options: &SortOptions) -> (r: Ordering)
    ensures
        r == forward_order(*a, *b, *options),
{
    if options.dotfiles_first || options.directories_first {
        let g = compare_u64(
            rank_of(a, options.dotfiles_first),
            rank_of(b, options.dotfiles_first),
        );
        match g {
            Ordering::Equal => {},
            _ => {
                return g;
            },
        }
    }
    match options.sort_type {
        SortType::Name => compare_by_name(a.name.as_str(), b.name.as_str(), options),
        SortType::Size => compare_u64(get_entry_size(a), get_entry_size(b)),
        SortType::Modified => compare_by_modified(a.modified, b.modified),
        SortType::Extension => compare_by_extension(a.name.as_str(), b.name.as_str(), options),
    }
}

/// Every entry is ordered no later than the next one.
pub open spec fn sorted_by(s: Seq<WalkRecord>, o: SortOptions) -> bool {
    forall|k: int| 0 <= k && k + 1 < s.len() ==> #[trigger] is_le(entry_order(s[k], s[k + 1], o))
}

proof fn lemma_reinsert<A>(s: Seq<A>, i: int, j: int)
    requires
        0 <= i < s.len(),
        0 <= j < s.len(),
    ensures
        s.remove(i).insert(j, s[i]).to_multiset() =~= s.to_multiset(),
{
    broadcast use vstd::multiset::group_multiset_axioms;

    let r = s.remove(i);
    let t = r.insert(j, s[i]);
    assert(t.remove(j) =~= r);
    s.to_multiset_ensures();
    t.to_multiset_ensures();
    assert(t[j] == s[i]);
    assert(t.to_multiset().count(s[i]) > 0) by {
        assert(t.contains(s[i]));
    }
    assert(s.to_multiset().count(s[i]) > 0) by {
        assert(s.contains(s[i]));
    }
    r.to_multiset_ensures();
    assert(r.len() == s.len() - 1);
    assert(t.remove(j).to_multiset() == t.to_multiset().remove(t[j]));
    assert(s.remove(i).to_multiset() == s.to_multiset().remove(s[i]));
    assert forall|v: A| #[trigger] t.to_multiset().count(v) == s.to_multiset().count(v) by {
        assert(t.to_multiset().remove(s[i]).count(v) == s.to_multiset().remove(s[i]).count(v));
    }
}

fn comes_after(a: &WalkRecord, b: &WalkRecord, options: &SortOptions) -> (r: bool)
    ensures
        r == (entry_order(*a, *b, *options) == Ordering::Greater),
{
    match compare_entries(a, b, options) {
        Ordering::Greater => true,
        _ => false,
    }
}

/// What sorting `before` under `o` gives: the same entries; `before` itself
/// where it is already sorted; and, without natural sort, a sorted sequence.
pub open spec fn sort_outcome(before: Seq<WalkRecord>, after: Seq<WalkRecord>, o: SortOptions) -> bool {
    &&& after.to_multiset() == before.to_multiset()
    &&& after.len() == before.len()
    &&& sorted_by(before, o) ==> after == before
    &&& !o.natural_sort ==> sorted_by(after, o)
}

/// Sorting twice gives what sorting once gave: the second sort meets a
/// sorted sequence and leaves it as it is.
pub proof fn lemma_sort_twice(input: Seq<WalkRecord>, once: Seq<WalkRecord>, twice: Seq<WalkRecord>, o: SortOptions)
    requires
        !o.natural_sort,
        sort_outcome(input, once, o),
        sort_outcome(once, twice, o),
    ensures
        twice == once,
{
}

proof fn lemma_chain_less(s: Seq<WalkRecord>, o: SortOptions, i: int, j: int)
    requires
        !o.natural_sort,
        0 <= i < j < s.len(),
        forall|k: int| 0 <= k && k + 1 < s.len() ==> #[trigger] entry_order(s[k], s[k + 1], o) == Ordering::Less,
    ensures
        entry_order(s[i], s[j], o) == Ordering::Less,
    decreases j - i,
{
    if j > i + 1 {
        lemma_chain_less(s, o, i, j - 1);
        let m = j - 1;
        assert(entry_order(s[m], s[m + 1], o) == Ordering::Less);
        lemma_entry_order_total(s[i], s[m], s[j], o);
        lemma_entry_order_total(s[j], s[i], s[m], o);
        lemma_entry_order_total(s[m], s[j], s[i], o);
    } else {
        assert(entry_order(s[i], s[i + 1], o) == Ordering::Less);
    }
}

proof fn lemma_same_prefix(f: Seq<WalkRecord>, g: Seq<WalkRecord>, o: SortOptions, k: int)
    requires
        !o.natural_sort,
        f.to_multiset() == g.to_multiset(),
        f.len() == g.len(),
        0 <= k <= f.len(),
        forall|i: int, j: int| 0 <= i < j < f.len() ==> #[trigger] entry_order(f[i], f[j], o) == Ordering::Less,
        forall|i: int, j: int| 0 <= i < j < g.len() ==> #[trigger] entry_order(g[i], g[j], o) == Ordering::Less,
    ensures
        forall|x: int| 0 <= x < k ==> f[x] == g[x],
    decreases k,
{
    if k > 0 {
        let c = k - 1;
        lemma_same_prefix(f, g, o, c);
        f.to_multiset_ensures();
        g.to_multiset_ensures();
        if f[c] != g[c] {
            assert(f.to_multiset().count(g[c]) > 0) by {
                assert(g.contains(g[c]));
            }
            let m = choose|m: int| 0 <= m < f.len() && f[m] == g[c];
            assert(g.to_multiset().count(f[c]) > 0) by {
                assert(f.contains(f[c]));
            }
            let m2 = choose|m2: int| 0 <= m2 < g.len() && g[m2] == f[c];
            lemma_entry_order_total(g[c], f[c], g[c], o);
            lemma_entry_order_total(f[c], g[c], f[c], o);
            if m < c {
                assert(f[m] == g[m]);
                assert(entry_order(g[m], g[c], o) == Ordering::Less);
            } else if m2 < c {
                assert(f[m2] == g[m2]);
                assert(entry_order(f[m2], f[c], o) == Ordering::Less);
            } else {
                assert(entry_order(f[c], f[m], o) == Ordering::Less);
                assert(entry_order(g[c], g[m2], o) == Ordering::Less);
            }
        }
    }
}

/// Two sequences of the same entries, each strictly increasing, are equal.
proof fn lemma_strictly_sorted_unique(f: Seq<WalkRecord>, g: Seq<WalkRecord>, o: SortOptions)
    requires
        !o.natural_sort,
        f.to_multiset() == g.to_multiset(),
        f.len() == g.len(),
        forall|i: int, j: int| 0 <= i < j < f.len() ==> #[trigger] entry_order(f[i], f[j], o) == Ordering::Less,
        forall|i: int, j: int| 0 <= i < j < g.len() ==> #[trigger] entry_order(g[i], g[j], o) == Ordering::Less,
    ensures
        f == g,
{
    lemma_same_prefix(f, g, o, f.len() as int);
    assert(f =~= g);
}

/// `o` with the reverse flag set.
pub open spec fn reversed(o: SortOptions) -> SortOptions {
    SortOptions { reverse: true, ..o }
}

/// Where no two entries of the input compare equal, sorting with `reverse`
/// gives exactly the reverse of sorting without it.
pub proof fn lemma_reverse_sort(
    input: Seq<WalkRecord>,
    forward: Seq<WalkRecord>,
    backward: Seq<WalkRecord>,
    o: SortOptions,
)
    requires
        !o.natural_sort,
        !o.reverse,
        forall|i: int, j: int|
            0 <= i < input.len() && 0 <= j < input.len() && i != j ==> #[trigger] entry_order(
                input[i],
                input[j],
                o,
            ) != Ordering::Equal,
        sort_outcome(input, forward, o),
        sort_outcome(input, backward, reversed(o)),
    ensures
        backward == forward.reverse(),
{
    let r = reversed(o);
    let g = backward.reverse();
    assert(input.no_duplicates()) by {
        assert forall|i: int, j: int| 0 <= i < input.len() && 0 <= j < input.len() && i != j implies input[i]
            != input[j] by {
            lemma_entry_order_total(input[i], input[i], input[i], o);
        }
    }
    input.lemma_multiset_has_no_duplicates();
    forward.lemma_multiset_has_no_duplicates_conv();
    backward.lemma_multiset_has_no_duplicates_conv();
    input.to_multiset_ensures();
    forward.to_multiset_ensures();
    backward.to_multiset_ensures();
    // Distinct entries of the results are distinct entries of the input.
    assert forall|a: WalkRecord, b: WalkRecord|
        a != b && #[trigger] forward.to_multiset().count(a) > 0 && #[trigger] forward.to_multiset().count(b) > 0
            implies entry_order(a, b, o) != Ordering::Equal by {
        assert(input.to_multiset().count(a) > 0 && input.to_multiset().count(b) > 0);
        let i = choose|i: int| 0 <= i < input.len() && input[i] == a;
        let j = choose|j: int| 0 <= j < input.len() && input[j] == b;
    }
    assert forall|k: int| 0 <= k && k + 1 < forward.len() implies #[trigger] entry_order(
        forward[k],
        forward[k + 1],
        o,
    ) == Ordering::Less by {
        assert(is_le(entry_order(forward[k], forward[k + 1], o)));
        assert(forward.contains(forward[k]) && forward.contains(forward[k + 1]));
        assert(forward.to_multiset().count(forward[k]) > 0);
        assert(forward.to_multiset().count(forward[k + 1]) > 0);
        assert(forward[k] != forward[k + 1]);
    }
    assert forall|k: int| 0 <= k && k + 1 < g.len() implies #[trigger] entry_order(g[k], g[k + 1], o)
        == Ordering::Less by {
        let n = backward.len() as int;
        let a = n - 2 - k;
        assert(g[k] == backward[a + 1] && g[k + 1] == backward[a]);
        assert(is_le(entry_order(backward[a], backward[a + 1], r)));
        assert(backward.contains(backward[a]) && backward.contains(backward[a + 1]));
        assert(backward[a] != backward[a + 1]);
        assert(forward.to_multiset().count(backward[a]) > 0);
        assert(forward.to_multiset().count(backward[a + 1]) > 0);
        lemma_entry_order_total(backward[a], backward[a + 1], backward[a], o);
    }
    assert forall|i: int, j: int| 0 <= i < j < forward.len() implies #[trigger] entry_order(
        forward[i],
        forward[j],
        o,
    ) == Ordering::Less by {
        lemma_chain_less(forward, o, i, j);
    }
    assert forall|i: int, j: int| 0 <= i < j < g.len() implies #[trigger] entry_order(g[i], g[j], o)
        == Ordering::Less by {
        lemma_chain_less(g, o, i, j);
    }
    backward.lemma_reverse_to_multiset();
    lemma_strictly_sorted_unique(forward, g, o);
    assert(backward =~= g.reverse());
}

/// Sorts entries by the configuration, by insertion.
///
/// The result holds the same entries; a sequence that is already sorted is
/// left as it is; without natural sort the result is sorted.
pub fn sort_entries(entries: &mut Vec<WalkRecord>, options: &SortOptions)
    ensures
        sort_outcome(old(entries)@, final(entries)@, *options),
{
    let ghost start = entries@;
    let ghost o = *options;
    let n = entries.len();
    let mut i: usize = 0;
    while i < n
        invariant
            0 <= i <= n,
            n == start.len(),
            entries@.len() == n,
            entries@.to_multiset() == start.to_multiset(),
            forall|k: int| i <= k < n ==> entries@[k] == start[k],
            !o.natural_sort ==> sorted_by(entries@.subrange(0, i as int), o),
            sorted_by(start, o) ==> entries@ == start,
            o == *options,
        decreases n - i,
    {
        let ghost before = entries@;
        let x = entries.remove(i);
        let ghost removed = entries@;
        assert(removed =~= before.remove(i as int));
        let mut j: usize = i;
        while j > 0 && comes_after(&entries[j - 1], &x, options)
            invariant
                0 <= j <= i,
                i < n,
                n == start.len(),
                entries@ == removed,
                removed.len() == n - 1,
                forall|k: int| j <= k < i ==> entry_order(#[trigger] removed[k], x, o)
                    == Ordering::Greater,
                sorted_by(start, o) ==> j == i,
                sorted_by(start, o) ==> removed =~= start.remove(i as int),
                x == start[i as int],
                o == *options,
            decreases j,
        {
            proof {
                if sorted_by(start, o) {
                    let m = i - 1;
                    assert(is_le(entry_order(start[m], start[m + 1], o)));
                    assert(removed[m] == start[m]);
                }
            }
            j = j - 1;
        }
        entries.insert(j, x);
        proof {
            lemma_reinsert(before, i as int, j as int);
            assert(entries@ =~= removed.insert(j as int, x));
            if sorted_by(start, o) {
                assert(entries@ =~= start);
            }
            if !o.natural_sort {
                let p = entries@.subrange(0, i + 1);
                let q = before.subrange(0, i as int);
                assert forall|k: int| 0 <= k && k + 1 < p.len() implies #[trigger] is_le(
                    entry_order(p[k], p[k + 1], o),
                ) by {
                    assert(sorted_by(q, o));
                    if k + 1 < j {
                        assert(q[k] == p[k] && q[k + 1] == p[k + 1]);
                        assert(is_le(entry_order(q[k], q[k + 1], o)));
                    } else if k + 1 == j {
                        assert(p[k] == removed[k] && p[k + 1] == x);
                    } else if k == j {
                        assert(p[k] == x && p[k + 1] == removed[k]);
                        assert(entry_order(removed[k], x, o) == Ordering::Greater);
                        lemma_entry_order_total(p[k], p[k + 1], p[k], o);
                    } else {
                        let m = k - 1;
                        assert(q[m] == p[k] && q[m + 1] == p[k + 1]);
                        assert(is_le(entry_order(q[m], q[m + 1], o)));
                    }
                }
            }
        }
        i = i + 1;
    }
    proof {
        assert(entries@.subrange(0, n as int) =~= entries@);
    }
}

/// Positions into `records`, each ordered no later than the next one by the
/// entries they point at.
pub open spec fn positions_sorted(records: Seq<WalkRecord>, p: Seq<usize>, o: SortOptions) -> bool {
    forall|k: int|
        0 <= k && k + 1 < p.len() ==> #[trigger] is_le(
            entry_order(records[p[k] as int], records[p[k + 1] as int], o),
        )
}

/// The positions increase.
pub open spec fn increasing(p: Seq<usize>) -> bool {
    forall|i: int, j: int| 0 <= i < j < p.len() ==> #[trigger] p[i] < #[trigger] p[j]
}

/// Neighbours that point at entries that compare equal keep the order of
/// their positions.
pub open spec fn ties_in_order(records: Seq<WalkRecord>, p: Seq<usize>, o: SortOptions) -> bool {
    forall|k: int|
        0 <= k && k + 1 < p.len() && #[trigger] entry_order(records[p[k] as int], records[p[k + 1] as int], o)
            == Ordering::Equal ==> p[k] < p[k + 1]
}

/// Sorts positions into `records` by the entries they point at, stably, by
/// insertion. The result holds the same positions; without natural sort it
/// is sorted, and positions given in increasing order stay in that order
/// among entries that compare equal.
pub fn sort_positions(records: &Vec<WalkRecord>, positions: &mut Vec<usize>, options: &SortOptions)
    requires
        forall|k: int| 0 <= k < old(positions)@.len() ==> #[trigger] old(positions)@[k] < records@.len(),
    ensures
        final(positions)@.to_multiset() == old(positions)@.to_multiset(),
        final(positions)@.len() == old(positions)@.len(),
        forall|k: int| 0 <= k < final(positions)@.len() ==> #[trigger] final(positions)@[k] < records@.len(),
        !options.natural_sort ==> positions_sorted(records@, final(positions)@, *options),
        !options.natural_sort && increasing(old(positions)@) ==> ties_in_order(
            records@,
            final(positions)@,
            *options,
        ),
{
    let ghost start = positions@;
    let ghost o = *options;
    let ghost rs = records@;
    let n = positions.len();
    let mut i: usize = 0;
    while i < n
        invariant
            0 <= i <= n,
            n == start.len(),
            positions@.len() == n,
            positions@.to_multiset() == start.to_multiset(),
            forall|k: int| 0 <= k < n ==> #[trigger] positions@[k] < rs.len(),
            forall|k: int| i <= k < n ==> positions@[k] == start[k],
            !o.natural_sort ==> positions_sorted(rs, positions@.subrange(0, i as int), o),
            !o.natural_sort && increasing(start) ==> ties_in_order(rs, positions@.subrange(0, i as int), o),
            increasing(start) ==> forall|k: int, m: int|
                0 <= k < i <= m < n ==> #[trigger] positions@[k] < #[trigger] start[m],
            o == *options,
            rs == records@,
        decreases n - i,
    {
        let ghost before = positions@;
        let x = positions.remove(i);
        let ghost removed = positions@;
        assert(removed =~= before.remove(i as int));
        let mut j: usize = i;
        while j > 0 && comes_after(&records[positions[j - 1]], &records[x], options)
            invariant
                0 <= j <= i,
                i < n,
                positions@ == removed,
                removed.len() == n - 1,
                forall|k: int| 0 <= k < n - 1 ==> #[trigger] removed[k] < rs.len(),
                x < rs.len(),
                forall|k: int| j <= k < i ==> entry_order(rs[#[trigger] removed[k] as int], rs[x as int], o)
                    == Ordering::Greater,
                o == *options,
                rs == records@,
            decreases j,
        {
            j = j - 1;
        }
        positions.insert(j, x);
        proof {
            lemma_reinsert(before, i as int, j as int);
            assert(positions@ =~= removed.insert(j as int, x));
            if !o.natural_sort {
                let p = positions@.subrange(0, i + 1);
                let q = before.subrange(0, i as int);
                assert forall|k: int| 0 <= k && k + 1 < p.len() implies #[trigger] is_le(
                    entry_order(rs[p[k] as int], rs[p[k + 1] as int], o),
                ) by {
                    assert(positions_sorted(rs, q, o));
                    if k + 1 < j {
                        assert(q[k] == p[k] && q[k + 1] == p[k + 1]);
                        assert(is_le(entry_order(rs[q[k] as int], rs[q[k + 1] as int], o)));
                    } else if k + 1 == j {
                        assert(p[k] == removed[k] && p[k + 1] == x);
                    } else if k == j {
                        assert(p[k] == x && p[k + 1] == removed[k]);
                        assert(entry_order(rs[removed[k] as int], rs[x as int], o) == Ordering::Greater);
                        lemma_entry_order_total(rs[p[k] as int], rs[p[k + 1] as int], rs[p[k] as int], o);
                    } else {
                        let m = k - 1;
                        assert(q[m] == p[k] && q[m + 1] == p[k + 1]);
                        assert(is_le(entry_order(rs[q[m] as int], rs[q[m + 1] as int], o)));
                    }
                }
            }
            if increasing(start) {
                let p = positions@.subrange(0, i + 1);
                let q = before.subrange(0, i as int);
                assert forall|k: int, m: int| 0 <= k < i + 1 <= m < n implies #[trigger] positions@[k]
                    < #[trigger] start[m] by {
                    if k < j {
                        assert(positions@[k] == before[k]);
                        assert(before[k] < start[m]);
                    } else if k == j {
                        assert(start[i as int] < start[m]);
                    } else {
                        assert(positions@[k] == before[k - 1]);
                        assert(before[k - 1] < start[m]);
                    }
                }
                if !o.natural_sort {
                    assert forall|k: int|
                        0 <= k && k + 1 < p.len() && #[trigger] entry_order(rs[p[k] as int], rs[p[k + 1] as int], o)
                            == Ordering::Equal implies p[k] < p[k + 1] by {
                        assert(ties_in_order(rs, q, o));
                        if k + 1 < j {
                            assert(q[k] == p[k] && q[k + 1] == p[k + 1]);
                        } else if k + 1 == j {
                            assert(p[k] == before[k] && p[k + 1] == x);
                            assert(before[k] < start[i as int]);
                        } else if k == j {
                            assert(p[k] == x && p[k + 1] == removed[k]);
                            assert(entry_order(rs[removed[k] as int], rs[x as int], o) == Ordering::Greater);
                            lemma_entry_order_total(rs[p[k] as int], rs[p[k + 1] as int], rs[p[k] as int], o);
                        } else {
                            let m = k - 1;
                            assert(q[m] == p[k] && q[m + 1] == p[k + 1]);
                        }
                    }
                }
            }
        }
        i = i + 1;
    }
    proof {
        assert(positions@.subrange(0, n as int) =~= positions@);
    }
}

} // verus!
