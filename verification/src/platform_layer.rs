use vstd::prelude::*;

use crate::launch_cmd::{is_launch_cmd_of, path_exists, LaunchCmd};
use crate::desktop_file::{
    desktop_scan, opt_view, scan_desktop_file, DesktopEntry, DesktopFileError, DesktopScan,
    EntryModel, ScanModel,
};
use crate::text::{chars_of, ends_with, has_prefix, has_suffix, lemma_has_suffix_iff, starts_with};

verus! {

/// A launchable application, as read from its desktop entry.
#[derive(Debug)]
pub struct Item {
    pub name: String,
    pub launch_cmd: LaunchCmd,
    pub kind: Option<String>,
    pub icon: Option<String>,
    pub description: Option<String>,
    pub terminal_app: Option<bool>,
    pub keywords: Option<String>,
}

/// The model of an `Item`.
pub struct ItemModel {
    pub name: Seq<char>,
    pub launch_cmd: Seq<Seq<char>>,
    pub kind: Option<Seq<char>>,
    pub icon: Option<Seq<char>>,
    pub description: Option<Seq<char>>,
    pub terminal_app: Option<bool>,
    pub keywords: Option<Seq<char>>,
}

impl View for Item {
    type V = ItemModel;

    open spec fn view(&self) -> ItemModel {
        ItemModel {
            name: self.name@,
            launch_cmd: self.launch_cmd@,
            kind: opt_view(self.kind),
            icon: opt_view(self.icon),
            description: opt_view(self.description),
            terminal_app: self.terminal_app,
            keywords: opt_view(self.keywords),
        }
    }
}

impl Default for Item {
    /// An item with an empty name and command and every other key absent.
    fn default() -> (r: Self)
        ensures
            r@ == (ItemModel {
                name: Seq::empty(),
                launch_cmd: Seq::empty(),
                kind: None,
                icon: None,
                description: None,
                terminal_app: None,
                keywords: None,
            }),
    {
        Item {
            name: String::new(),
            launch_cmd: LaunchCmd::default(),
            kind: None,
            icon: None,
            description: None,
            terminal_app: None,
            keywords: None,
        }
    }
}

/// A copy of an optional string.
fn clone_opt(o: &Option<String>) -> (r: Option<String>)
    ensures
        opt_view(r) == opt_view(*o),
{
    match o {
        Some(s) => Some(s.clone()),
        None => None,
    }
}

impl Clone for Item {
    fn clone(&self) -> (r: Self)
        ensures
            r@ == self@,
    {
        Item {
            name: self.name.clone(),
            launch_cmd: self.launch_cmd.clone(),
            kind: clone_opt(&self.kind),
            icon: clone_opt(&self.icon),
            description: clone_opt(&self.description),
            terminal_app: self.terminal_app,
            keywords: clone_opt(&self.keywords),
        }
    }
}

/// The path that the icon theme gave for the icon `name`, as recorded in
/// `table` (pairs of a name and the path found for it, empty when the theme
/// has none); the first pair for the name counts, and a name without a pair
/// has none.
pub open spec fn theme_path_of(table: Seq<(String, String)>, name: Seq<char>) -> Seq<char>
    decreases table.len(),
{
    if table.len() == 0 {
        Seq::empty()
    } else if table[0].0@ == name {
        table[0].1@
    } else {
        theme_path_of(table.drop_first(), name)
    }
}

/// The path recorded in `table` for the icon `name`, or the empty string.
pub fn theme_lookup(table: &Vec<(String, String)>, name: &String) -> (r: String)
    ensures
        r@ == theme_path_of(table@, name@),
{
    let mut i: usize = 0;
    assert(table@.skip(0) =~= table@);
    while i < table.len()
        invariant
            i <= table@.len(),
            theme_path_of(table@, name@) == theme_path_of(table@.skip(i as int), name@),
        decreases table@.len() - i,
    {
        assert(table@.skip(i as int)[0] == table@[i as int]);
        if table[i].0 == *name {
            return table[i].1.clone();
        }
        assert(table@.skip(i as int).drop_first() =~= table@.skip(i + 1));
        i = i + 1;
    }
    String::new()
}

/// The icon names of `icons` (the values that are not absolute paths), which
/// the icon theme has to be asked about, in order.
pub open spec fn theme_names(icons: Seq<Seq<char>>) -> Seq<Seq<char>>
    decreases icons.len(),
{
    if icons.len() == 0 {
        Seq::empty()
    } else {
        let rest = theme_names(icons.drop_last());
        if has_prefix(icons.last(), seq!['/']) {
            rest
        } else {
            rest.push(icons.last())
        }
    }
}

/// The icon names of an entry that the icon theme has to be asked about.
pub fn theme_icon_names(entry: &DesktopEntry) -> (r: Vec<String>)
    ensures
        r@.map_values(|s: String| s@) == theme_names(entry@.icons),
{
    let slash: Vec<char> = vec!['/'];
    assert(slash@ =~= seq!['/']);
    let mut r: Vec<String> = Vec::new();
    let mut i: usize = 0;
    while i < entry.icons.len()
        invariant
            i <= entry.icons@.len(),
            slash@ == seq!['/'],
            r@.map_values(|s: String| s@) == theme_names(entry@.icons.take(i as int)),
        decreases entry.icons@.len() - i,
    {
        let ghost before = r@;
        assert(entry@.icons.take(i + 1).drop_last() =~= entry@.icons.take(i as int));
        assert(entry@.icons.take(i + 1).last() == entry.icons@[i as int]@);
        if !starts_with(&chars_of(entry.icons[i].as_str()), &slash) {
            r.push(entry.icons[i].clone());
            assert(r@.map_values(|s: String| s@) =~= before.map_values(|s: String| s@).push(
                entry.icons@[i as int]@,
            ));
        }
        i = i + 1;
    }
    assert(entry@.icons.take(entry.icons@.len() as int) =~= entry@.icons);
    r
}

/// What the `Icon=` value `value` resolves to, given what was found on disk:
/// `exists` tells whether a file is at `value` (asked only of an absolute
/// path), `theme_path` is what the icon theme gave for the name (asked only of
/// a name, empty when it has none).
pub open spec fn icon_lookup_result(value: Seq<char>, exists: bool, theme_path: Seq<char>) -> Option<
    Seq<char>,
> {
    if has_prefix(value, seq!['/']) {
        if exists {
            Some(value)
        } else {
            None
        }
    } else if theme_path.len() > 0 {
        Some(theme_path)
    } else {
        None
    }
}

/// The icon that `value` resolves to, given the answers of the file system
/// and of the icon theme: an absolute path when a file is there, otherwise
/// the theme's path when it found one.
pub fn icon_of_lookup(value: &String, exists: bool, theme_path: String) -> (r: Option<String>)
    ensures
        opt_view(r) == icon_lookup_result(value@, exists, theme_path@),
{
    let v = chars_of(value.as_str());
    let slash: Vec<char> = vec!['/'];
    assert(slash@ =~= seq!['/']);
    if starts_with(&v, &slash) {
        if exists {
            Some(value.clone())
        } else {
            None
        }
    } else if chars_of(theme_path.as_str()).len() != 0 {
        Some(theme_path)
    } else {
        None
    }
}

/// Whether `r` is what the `Icon=` value `value` resolves to for some
/// answer of the file system, the icon theme's answers being those of `table`.
pub open spec fn is_icon_resolution(value: Seq<char>, table: Seq<(String, String)>, r: Option<Seq<char>>) -> bool {
    exists|exists: bool| r == #[trigger] icon_lookup_result(value, exists, theme_path_of(table, value))
}

/// Resolves an `Icon=` value: an absolute path is taken when the file
/// exists; a name takes the path that `table` records for it.
pub fn resolve_icon(value: &String, table: &Vec<(String, String)>) -> (r: Option<String>)
    ensures
        is_icon_resolution(value@, table@, opt_view(r)),
        !has_prefix(value@, seq!['/']) ==> opt_view(r) == icon_lookup_result(
            value@,
            false,
            theme_path_of(table@, value@),
        ),
{
    let v = chars_of(value.as_str());
    let slash: Vec<char> = vec!['/'];
    assert(slash@ =~= seq!['/']);
    if starts_with(&v, &slash) {
        let exists = path_exists(value.as_str());
        let r = icon_of_lookup(value, exists, theme_lookup(table, value));
        assert(opt_view(r) == icon_lookup_result(value@, exists, theme_path_of(table@, value@)));
        r
    } else {
        let r = icon_of_lookup(value, false, theme_lookup(table, value));
        assert(opt_view(r) == icon_lookup_result(value@, false, theme_path_of(table@, value@)));
        r
    }
}

/// The icon chosen for the `Icon=` values `icons`, given for each whether a
/// file exists at it (`exists`) and the theme's answers in `table`: the last
/// value that resolves, or none.
pub open spec fn icon_choice(icons: Seq<Seq<char>>, exists: Seq<bool>, table: Seq<(String, String)>) -> Option<Seq<char>>
    decreases icons.len(),
{
    if icons.len() == 0 || exists.len() == 0 {
        None
    } else {
        match icon_lookup_result(icons.last(), exists.last(), theme_path_of(table, icons.last())) {
            Some(p) => Some(p),
            None => icon_choice(icons.drop_last(), exists.drop_last(), table),
        }
    }
}

/// The icon chosen is what the last value that resolves resolves to, no
/// later value resolving; when none is chosen, no value resolves.
pub proof fn lemma_icon_choice_is_last(
    icons: Seq<Seq<char>>,
    exists: Seq<bool>,
    table: Seq<(String, String)>,
)
    requires
        exists.len() == icons.len(),
    ensures
        icon_choice(icons, exists, table) is None ==> forall|k: int|
            0 <= k < icons.len() ==> #[trigger] icon_lookup_result(
                icons[k],
                exists[k],
                theme_path_of(table, icons[k]),
            ) is None,
        icon_choice(icons, exists, table) matches Some(p) ==> exists|k: int|
            0 <= k < icons.len() && icon_lookup_result(
                icons[k],
                exists[k],
                theme_path_of(table, icons[k]),
            ) == Some(p) && forall|j: int|
                k < j < icons.len() ==> #[trigger] icon_lookup_result(
                    icons[j],
                    exists[j],
                    theme_path_of(table, icons[j]),
                ) is None,
    decreases icons.len(),
{
    if icons.len() > 0 {
        let n = icons.len() - 1;
        lemma_icon_choice_is_last(icons.drop_last(), exists.drop_last(), table);
        match icon_lookup_result(icons.last(), exists.last(), theme_path_of(table, icons.last())) {
            Some(p) => {
                assert(icon_lookup_result(icons[n], exists[n], theme_path_of(table, icons[n]))
                    == Some(p));
            },
            None => {
                assert forall|k: int| 0 <= k < icons.drop_last().len() implies icons.drop_last()[k]
                    == icons[k] && exists.drop_last()[k] == exists[k] by {}
                if let Some(p) = icon_choice(icons, exists, table) {
                    let k = choose|k: int|
                        0 <= k < icons.drop_last().len() && icon_lookup_result(
                            icons.drop_last()[k],
                            exists.drop_last()[k],
                            theme_path_of(table, icons.drop_last()[k]),
                        ) == Some(p) && forall|j: int|
                            k < j < icons.drop_last().len() ==> #[trigger] icon_lookup_result(
                                icons.drop_last()[j],
                                exists.drop_last()[j],
                                theme_path_of(table, icons.drop_last()[j]),
                            ) is None;
                    assert forall|j: int| k < j < icons.len() implies #[trigger] icon_lookup_result(
                        icons[j],
                        exists[j],
                        theme_path_of(table, icons[j]),
                    ) is None by {
                        if j < n {
                            assert(icon_lookup_result(
                                icons.drop_last()[j],
                                exists.drop_last()[j],
                                theme_path_of(table, icons.drop_last()[j]),
                            ) is None);
                        }
                    }
                } else {
                    assert forall|k: int| 0 <= k < icons.len() implies #[trigger] icon_lookup_result(
                        icons[k],
                        exists[k],
                        theme_path_of(table, icons[k]),
                    ) is None by {
                        if k < n {
                            assert(icon_lookup_result(
                                icons.drop_last()[k],
                                exists.drop_last()[k],
                                theme_path_of(table, icons.drop_last()[k]),
                            ) is None);
                        }
                    }
                }
            },
        }
    }
}

/// The theme path recorded for a name is that of the first pair for the
/// name; a name without a pair has none.
pub proof fn lemma_theme_path_first(table: Seq<(String, String)>, name: Seq<char>)
    ensures
        (forall|k: int| 0 <= k < table.len() ==> (#[trigger] table[k]).0@ != name) ==> theme_path_of(
            table,
            name,
        ).len() == 0,
        forall|k: int|
            0 <= k < table.len() && (#[trigger] table[k]).0@ == name && (forall|j: int|
                0 <= j < k ==> table[j].0@ != name) ==> theme_path_of(table, name) == table[k].1@,
    decreases table.len(),
{
    if table.len() > 0 {
        lemma_theme_path_first(table.drop_first(), name);
        assert forall|k: int|
            0 <= k < table.len() && (#[trigger] table[k]).0@ == name && (forall|j: int|
                0 <= j < k ==> table[j].0@ != name) implies theme_path_of(table, name)
            == table[k].1@ by {
            if k > 0 {
                assert(table[0].0@ != name);
                assert(table.drop_first()[k - 1] == table[k]);
                assert forall|j: int| 0 <= j < k - 1 implies table.drop_first()[j].0@ != name by {
                    assert(table.drop_first()[j] == table[j + 1]);
                }
            }
        }
        if forall|k: int| 0 <= k < table.len() ==> (#[trigger] table[k]).0@ != name {
            assert(table[0].0@ != name);
            assert forall|k: int| 0 <= k < table.drop_first().len() implies (
            #[trigger] table.drop_first()[k]).0@ != name by {
                assert(table.drop_first()[k] == table[k + 1]);
            }
        }
    }
}

/// The icon chosen for the `Icon=` values `icons` given the answers of the
/// file system (`exists`, one per value) and of the icon theme (`table`):
/// the last value that resolves, or none.
pub fn choose_icon(icons: &Vec<String>, exists: &Vec<bool>, table: &Vec<(String, String)>) -> (r: Option<String>)
    requires
        exists@.len() == icons@.len(),
    ensures
        opt_view(r) == icon_choice(icons@.map_values(|s: String| s@), exists@, table@),
{
    let ghost vs = icons@.map_values(|s: String| s@);
    let mut icon: Option<String> = None;
    let mut i: usize = 0;
    while i < icons.len()
        invariant
            i <= icons@.len(),
            exists@.len() == icons@.len(),
            vs == icons@.map_values(|s: String| s@),
            opt_view(icon) == icon_choice(vs.take(i as int), exists@.take(i as int), table@),
        decreases icons@.len() - i,
    {
        let found = icon_of_lookup(&icons[i], exists[i], theme_lookup(table, &icons[i]));
        assert(vs.take(i + 1).drop_last() =~= vs.take(i as int));
        assert(exists@.take(i + 1).drop_last() =~= exists@.take(i as int));
        assert(vs.take(i + 1).last() == icons@[i as int]@);
        assert(exists@.take(i + 1).last() == exists@[i as int]);
        if found.is_some() {
            icon = found;
        }
        i = i + 1;
    }
    assert(vs.take(icons@.len() as int) =~= vs);
    assert(exists@.take(icons@.len() as int) =~= exists@);
    icon
}

/// Whether `item` is what `item_from_entry` builds from the entry `m`, the
/// icon theme's answers being those of `table`, for some answers of the file
/// system.
pub open spec fn is_item_of(
    m: EntryModel,
    item: ItemModel,
    table: Seq<(String, String)>,
    path_dirs: Seq<char>,
) -> bool {
    &&& item.name == m.name
    &&& item.kind == m.kind
    &&& item.description == m.description
    &&& item.terminal_app == m.terminal_app
    &&& item.keywords == m.keywords
    &&& exists|exists: Seq<bool>|
        exists.len() == m.icons.len() && item.icon == #[trigger] icon_choice(m.icons, exists, table)
    &&& is_launch_cmd_of(item.launch_cmd, m.command, path_dirs)
}

/// Builds the item of a desktop entry: its keys copied, the last of its icons
/// that resolves taken as the icon (names resolved through `table`, absolute
/// paths by asking the file system), and its command built with the program
/// looked up in the directories of `path_dirs`.
pub fn item_from_entry(entry: DesktopEntry, table: &Vec<(String, String)>, path_dirs: &str) -> (r: Item)
    ensures
        is_item_of(entry@, r@, table@, path_dirs@),
{
    let ghost m = entry@;
    let DesktopEntry { name, command, kind, icons, description, terminal_app, keywords } = entry;
    let slash: Vec<char> = vec!['/'];
    assert(slash@ =~= seq!['/']);
    let mut exists: Vec<bool> = Vec::new();
    let mut i: usize = 0;
    while i < icons.len()
        invariant
            i <= icons@.len(),
            exists@.len() == i,
        decreases icons@.len() - i,
    {
        if starts_with(&chars_of(icons[i].as_str()), &slash) {
            exists.push(path_exists(icons[i].as_str()));
        } else {
            exists.push(false);
        }
        i = i + 1;
    }
    let icon = choose_icon(&icons, &exists, table);
    assert(icons@.map_values(|s: String| s@) == m.icons);
    let mut item = Item {
        name,
        launch_cmd: LaunchCmd::default(),
        kind,
        icon,
        description,
        terminal_app,
        keywords,
    };
    item.launch_cmd = LaunchCmd::new(command, &item, path_dirs);
    item
}


/// Whether `path` names a desktop file: it ends with `.desktop`.
pub fn is_desktop_file_path(path: &str) -> (r: bool)
    ensures
        r == has_suffix(path@, ".desktop"@),
{
    ends_with(&chars_of(path), &chars_of(".desktop"))
}

/// Every path whose name ends with `.desktop` is a desktop file, whatever
/// comes before (dots included), and only those are.
pub proof fn lemma_desktop_file_paths(path: Seq<char>)
    ensures
        has_suffix(path + ".desktop"@, ".desktop"@),
        has_suffix(path, ".desktop"@) <==> exists|p: Seq<char>| path == #[trigger] (p + ".desktop"@),
{
    lemma_has_suffix_iff(path + ".desktop"@, ".desktop"@);
    lemma_has_suffix_iff(path, ".desktop"@);
}

/// Whether reading `contents` stops on a `Terminal=` value other than `true`
/// or `false`, on which `parce_desktop_file` would have no boolean to store.
pub open spec fn has_bad_terminal(contents: Seq<char>) -> bool {
    desktop_scan(contents) is BadTerminal
}

/// Whether `parce_desktop_file` accepts `contents`: reading it does not stop
/// on a `Terminal=` value that is not a boolean.
pub fn desktop_file_is_readable(contents: &str) -> (r: bool)
    ensures
        r == !has_bad_terminal(contents@),
{
    match scan_desktop_file(contents) {
        DesktopScan::BadTerminal => false,
        _ => true,
    }
}

/// Reads the desktop file at `path`, whose text is `contents`, into an item;
/// icon names are resolved through `table`, programs are looked up in the
/// directories of `path_dirs`.
pub fn parce_desktop_file(
    path: &String,
    contents: &str,
    table: &Vec<(String, String)>,
    path_dirs: &str,
) -> (r: Result<
    Item,
    DesktopFileError,
>)
    requires
        !has_bad_terminal(contents@),
    ensures
        match desktop_scan(contents@) {
            ScanModel::Entry(m) => r matches Ok(item) && is_item_of(m, item@, table@, path_dirs@),
            ScanModel::MissingHeader => r matches Err(DesktopFileError::MissingHeader),
            ScanModel::ExtraGroup(g) => r matches Err(DesktopFileError::ExtraGroup(line))
                && line@ == g,
            ScanModel::NotApplication => r matches Err(DesktopFileError::NotApplication),
            ScanModel::BadTerminal => false,
        },
{
    match scan_desktop_file(contents) {
        DesktopScan::Entry(e) => Ok(item_from_entry(e, table, path_dirs)),
        DesktopScan::MissingHeader => Err(DesktopFileError::MissingHeader),
        DesktopScan::ExtraGroup(g) => Err(DesktopFileError::ExtraGroup(g)),
        DesktopScan::NotApplication => Err(DesktopFileError::NotApplication),
        DesktopScan::BadTerminal => Err(DesktopFileError::NotApplication),
    }
}

/// The entries of the desktop files that were read and are applications, in
/// order; `files` pairs each path with its text, `None` when it could not be
/// read.
pub open spec fn loaded_entries(files: Seq<(String, Option<String>)>) -> Seq<EntryModel>
    decreases files.len(),
{
    if files.len() == 0 {
        Seq::empty()
    } else {
        let rest = loaded_entries(files.drop_last());
        match files.last().1 {
            Some(c) => match desktop_scan(c@) {
                ScanModel::Entry(m) => rest.push(m),
                _ => rest,
            },
            None => rest,
        }
    }
}

/// Whether every desktop file of `files` that was read can be read by
/// `parce_desktop_file`.
pub open spec fn files_are_readable(files: Seq<(String, Option<String>)>) -> bool {
    forall|i: int|
        0 <= i < files.len() ==> ((#[trigger] files[i]).1 matches Some(c) ==> !has_bad_terminal(c@))
}

/// The items of the desktop files `files` (each path paired with its text,
/// `None` when it could not be read): the files that could not be read or
/// are refused are left out, the order is kept. Icon names are resolved
/// through `table`, programs looked up in the directories of `path_dirs`.
pub fn load_items(
    files: Vec<(String, Option<String>)>,
    table: &Vec<(String, String)>,
    path_dirs: &str,
) -> (r: Vec<Item>)
    requires
        files_are_readable(files@),
    ensures
        r@.len() == loaded_entries(files@).len(),
        forall|k: int|
            0 <= k < r@.len() ==> is_item_of(
                #[trigger] loaded_entries(files@)[k],
                r@[k]@,
                table@,
                path_dirs@,
            ),
{
    let mut items: Vec<Item> = Vec::new();
    let mut i: usize = 0;
    while i < files.len()
        invariant
            i <= files@.len(),
            files_are_readable(files@),
            items@.len() == loaded_entries(files@.take(i as int)).len(),
            forall|k: int|
                0 <= k < items@.len() ==> is_item_of(
                    #[trigger] loaded_entries(files@.take(i as int))[k],
                    items@[k]@,
                    table@,
                    path_dirs@,
                ),
        decreases files@.len() - i,
    {
        assert(files@.take(i + 1).drop_last() =~= files@.take(i as int));
        assert(files@.take(i + 1).last() == files@[i as int]);
        let ghost before = loaded_entries(files@.take(i as int));
        let (path, contents) = &files[i];
        if let Some(c) = contents {
            assert(!has_bad_terminal(c@)) by {
                assert(files@[i as int].1 == Some(*c));
            }
            match parce_desktop_file(path, c.as_str(), table, path_dirs) {
                Ok(item) => {
                    items.push(item);
                },
                Err(_) => {},
            }
        }
        i = i + 1;
    }
    assert(files@.take(files@.len() as int) =~= files@);
    items
}

/// A desktop file that is read and is an application adds its entry after
/// those of the files before it.
pub proof fn lemma_loaded_entries_push_application(
    files: Seq<(String, Option<String>)>,
    f: (String, Option<String>),
    c: String,
    m: EntryModel,
)
    requires
        f.1 == Some(c),
        desktop_scan(c@) == ScanModel::Entry(m),
    ensures
        loaded_entries(files.push(f)) == loaded_entries(files).push(m),
{
    assert(files.push(f).drop_last() =~= files);
}

/// A desktop file that could not be read, or is refused, adds nothing.
pub proof fn lemma_loaded_entries_push_other(
    files: Seq<(String, Option<String>)>,
    f: (String, Option<String>),
)
    requires
        f.1 matches Some(c) ==> !(desktop_scan(c@) is Entry),
    ensures
        loaded_entries(files.push(f)) == loaded_entries(files),
{
    assert(files.push(f).drop_last() =~= files);
}

/// Every desktop file that is read and is an application has its entry
/// among those loaded, and no more entries are loaded than there are files.
pub proof fn lemma_loaded_entries_complete(files: Seq<(String, Option<String>)>, i: int, m: EntryModel)
    requires
        0 <= i < files.len(),
        files[i].1 matches Some(c) && desktop_scan(c@) == ScanModel::Entry(m),
    ensures
        loaded_entries(files).contains(m),
        loaded_entries(files).len() <= files.len(),
    decreases files.len(),
{
    lemma_loaded_entries_len(files);
    let rest = loaded_entries(files.drop_last());
    if i == files.len() - 1 {
        assert(loaded_entries(files) == rest.push(m));
        assert(rest.push(m)[rest.len() as int] == m);
    } else {
        assert(files.drop_last()[i] == files[i]);
        lemma_loaded_entries_complete(files.drop_last(), i, m);
        let k = choose|k: int| 0 <= k < rest.len() && rest[k] == m;
        match files.last().1 {
            Some(c) => match desktop_scan(c@) {
                ScanModel::Entry(m2) => {
                    assert(rest.push(m2)[k] == m);
                },
                _ => {},
            },
            None => {},
        }
    }
}

/// No more entries are loaded than there are files.
proof fn lemma_loaded_entries_len(files: Seq<(String, Option<String>)>)
    ensures
        loaded_entries(files).len() <= files.len(),
    decreases files.len(),
{
    if files.len() > 0 {
        lemma_loaded_entries_len(files.drop_last());
    }
}

/// The command that launching `app` runs: its program and the program's
/// arguments; nothing when the item has no command.
pub fn launch_app(app: &Item) -> (r: Option<(String, Vec<String>)>)
    ensures
        r is None <==> app.launch_cmd@.len() == 0,
        r matches Some((program, args)) ==> program@ == app.launch_cmd@[0] && args@.map_values(
            |a: String| a@,
        ) == app.launch_cmd@.skip(1),
{
    let arguments = &app.launch_cmd.arguments;
    if arguments.len() == 0 {
        return None;
    }
    let program = arguments[0].clone();
    let mut args: Vec<String> = Vec::new();
    let mut i: usize = 1;
    while i < arguments.len()
        invariant
            1 <= i <= arguments@.len(),
            arguments == &app.launch_cmd.arguments,
            args@.map_values(|a: String| a@) == app.launch_cmd@.subrange(1, i as int),
        decreases arguments@.len() - i,
    {
        let ghost before = args@;
        args.push(arguments[i].clone());
        assert(args@.map_values(|a: String| a@) =~= before.map_values(|a: String| a@).push(
            arguments@[i as int]@,
        ));
        assert(app.launch_cmd@.subrange(1, i + 1) =~= app.launch_cmd@.subrange(1, i as int).push(
            app.launch_cmd@[i as int],
        ));
        i = i + 1;
    }
    assert(app.launch_cmd@.subrange(1, arguments@.len() as int) =~= app.launch_cmd@.skip(1));
    Some((program, args))
}

/// The items of `items` whose name begins with `pattern`, order kept.
pub open spec fn matching_items(items: Seq<Item>, pattern: Seq<char>) -> Seq<Item>
    decreases items.len(),
{
    if items.len() == 0 {
        Seq::empty()
    } else {
        let rest = matching_items(items.drop_last(), pattern);
        if has_prefix(items.last().name@, pattern) {
            rest.push(items.last())
        } else {
            rest
        }
    }
}

/// The items of `app_list` whose name begins with `search_pattern`, in the
/// order of `app_list`.
pub fn search_item(app_list: Vec<Item>, search_pattern: String) -> (r: Vec<Item>)
    ensures
        r@ == matching_items(app_list@, search_pattern@),
{
    let pattern = chars_of(search_pattern.as_str());
    let mut r: Vec<Item> = Vec::new();
    for item in it: app_list
        invariant
            it.seq() == app_list@,
            pattern@ == search_pattern@,
            r@ == matching_items(app_list@.take(it.index() as int), search_pattern@),
    {
        assert(app_list@.take(it.index() + 1).drop_last() =~= app_list@.take(it.index() as int));
        if starts_with(&chars_of(item.name.as_str()), &pattern) {
            r.push(item);
        }
    }
    assert(app_list@.take(app_list@.len() as int) =~= app_list@);
    r
}


/// A prefix of a prefix is a prefix.
proof fn lemma_prefix_of_prefix(s: Seq<char>, q: Seq<char>, p: Seq<char>)
    requires
        has_prefix(s, q),
        has_prefix(q, p),
    ensures
        has_prefix(s, p),
{
    assert(s.take(p.len() as int) =~= q.take(p.len() as int)) by {
        assert forall|i: int| 0 <= i < p.len() implies s.take(p.len() as int)[i] == q.take(
            p.len() as int,
        )[i] by {
            assert(s.take(q.len() as int)[i] == q[i]);
        }
    }
}

/// Every item that a search gives has a name that begins with the pattern.
pub proof fn lemma_search_results_match(items: Seq<Item>, pattern: Seq<char>)
    ensures
        forall|k: int|
            0 <= k < matching_items(items, pattern).len() ==> has_prefix(
                (#[trigger] matching_items(items, pattern)[k]).name@,
                pattern,
            ),
    decreases items.len(),
{
    if items.len() > 0 {
        lemma_search_results_match(items.drop_last(), pattern);
    }
}

/// Narrowing a search: searching the results of a search for `pattern` with
/// a longer pattern `refined` that begins with it gives what searching every
/// item with `refined` gives.
pub proof fn lemma_search_refines(items: Seq<Item>, pattern: Seq<char>, refined: Seq<char>)
    requires
        has_prefix(refined, pattern),
    ensures
        matching_items(matching_items(items, pattern), refined) == matching_items(items, refined),
    decreases items.len(),
{
    if items.len() > 0 {
        let rest = matching_items(items.drop_last(), pattern);
        lemma_search_refines(items.drop_last(), pattern, refined);
        let x = items.last();
        if has_prefix(x.name@, pattern) {
            assert(rest.push(x).drop_last() =~= rest);
            assert(rest.push(x).last() == x);
        } else {
            if has_prefix(x.name@, refined) {
                lemma_prefix_of_prefix(x.name@, refined, pattern);
            }
        }
    }
}

/// Searching the results of a search again with the same pattern changes
/// nothing.
pub proof fn lemma_search_idempotent(items: Seq<Item>, pattern: Seq<char>)
    ensures
        matching_items(matching_items(items, pattern), pattern) == matching_items(items, pattern),
{
    assert(pattern.take(pattern.len() as int) =~= pattern);
    lemma_search_refines(items, pattern, pattern);
}

/// A search keeps every item whose name begins with the pattern: the items
/// left out are exactly those whose name does not.
pub proof fn lemma_search_keeps_matches(items: Seq<Item>, pattern: Seq<char>, i: int)
    requires
        0 <= i < items.len(),
        has_prefix(items[i].name@, pattern),
    ensures
        matching_items(items, pattern).contains(items[i]),
    decreases items.len(),
{
    let rest = matching_items(items.drop_last(), pattern);
    if i == items.len() - 1 {
        assert(rest.push(items.last())[rest.len() as int] == items[i]);
    } else {
        assert(items.drop_last()[i] == items[i]);
        lemma_search_keeps_matches(items.drop_last(), pattern, i);
        let j = choose|j: int| 0 <= j < rest.len() && rest[j] == items[i];
        if has_prefix(items.last().name@, pattern) {
            assert(rest.push(items.last())[j] == items[i]);
        }
    }
}

} // verus!
