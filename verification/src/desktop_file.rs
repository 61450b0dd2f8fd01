use vstd::prelude::*;

use crate::text::{
    chars_eq, chars_of, has_prefix, lemma_prefix_one, lemma_split_from_concat,
    lemma_split_from_single, lemma_split_from_two, split_on, split_vec, starts_with,
    string_of, trim, trim_end, trim_start, trim_vec, is_white_space,
};

verus! {

/// The characters of an optional string.
pub open spec fn opt_view(o: Option<String>) -> Option<Seq<char>> {
    match o {
        Some(s) => Some(s@),
        None => None,
    }
}

/// The keys of a desktop entry that the launcher reads, as written in the
/// file, each with the desktop entry's raw value.
#[derive(Debug)]
pub struct DesktopEntry {
    pub name: String,
    pub command: String,
    pub kind: Option<String>,
    pub icons: Vec<String>,
    pub description: Option<String>,
    pub terminal_app: Option<bool>,
    pub keywords: Option<String>,
}

/// The model of a `DesktopEntry`.
pub struct EntryModel {
    pub name: Seq<char>,
    pub command: Seq<char>,
    pub kind: Option<Seq<char>>,
    pub icons: Seq<Seq<char>>,
    pub description: Option<Seq<char>>,
    pub terminal_app: Option<bool>,
    pub keywords: Option<Seq<char>>,
}

impl View for DesktopEntry {
    type V = EntryModel;

    open spec fn view(&self) -> EntryModel {
        EntryModel {
            name: self.name@,
            command: self.command@,
            kind: opt_view(self.kind),
            icons: self.icons@.map_values(|s: String| s@),
            description: opt_view(self.description),
            terminal_app: self.terminal_app,
            keywords: opt_view(self.keywords),
        }
    }
}

/// The entry before any line is read: every key absent, name and command empty.
pub open spec fn empty_entry() -> EntryModel {
    EntryModel {
        name: Seq::empty(),
        command: Seq::empty(),
        kind: None,
        icons: Seq::empty(),
        description: None,
        terminal_app: None,
        keywords: None,
    }
}

/// What reading a desktop file comes to.
pub enum ScanModel {
    Entry(EntryModel),
    MissingHeader,
    ExtraGroup(Seq<char>),
    NotApplication,
    BadTerminal,
}

/// The value of a `Key=value` line: the text between its first and second
/// `=` (or the end of the line).
pub open spec fn field_value(line: Seq<char>) -> Seq<char> {
    split_on(line, '=')[1]
}

/// How one trimmed line changes the entry being read, or ends the reading.
pub open spec fn scan_line(m: EntryModel, line: Seq<char>) -> ScanModel {
    if line.len() == 0 || has_prefix(line, seq!['#']) || has_prefix(line, seq![';']) {
        ScanModel::Entry(m)
    } else if has_prefix(line, seq!['[']) {
        if line == "[Desktop Entry]"@ {
            ScanModel::Entry(m)
        } else {
            ScanModel::ExtraGroup(line)
        }
    } else if has_prefix(line, "Exec="@) {
        ScanModel::Entry(EntryModel { command: field_value(line), ..m })
    } else if has_prefix(line, "Name="@) {
        ScanModel::Entry(EntryModel { name: field_value(line), ..m })
    } else if has_prefix(line, "Type="@) {
        if field_value(line) == "Application"@ {
            ScanModel::Entry(m)
        } else {
            ScanModel::NotApplication
        }
    } else if has_prefix(line, "GenericName="@) {
        ScanModel::Entry(EntryModel { kind: Some(field_value(line)), ..m })
    } else if has_prefix(line, "Icon="@) {
        ScanModel::Entry(EntryModel { icons: m.icons.push(field_value(line)), ..m })
    } else if has_prefix(line, "Comment="@) {
        ScanModel::Entry(EntryModel { description: Some(field_value(line)), ..m })
    } else if has_prefix(line, "Keywords="@) {
        ScanModel::Entry(EntryModel { keywords: Some(field_value(line)), ..m })
    } else if has_prefix(line, "Terminal="@) {
        if field_value(line) == "true"@ {
            ScanModel::Entry(EntryModel { terminal_app: Some(true), ..m })
        } else if field_value(line) == "false"@ {
            ScanModel::Entry(EntryModel { terminal_app: Some(false), ..m })
        } else {
            ScanModel::BadTerminal
        }
    } else {
        ScanModel::Entry(m)
    }
}

/// Reading the lines in order, each trimmed, from the entry `m`.
pub open spec fn scan_lines(m: EntryModel, lines: Seq<Seq<char>>) -> ScanModel
    decreases lines.len(),
{
    if lines.len() == 0 {
        ScanModel::Entry(m)
    } else {
        match scan_line(m, trim(lines[0])) {
            ScanModel::Entry(m2) => scan_lines(m2, lines.drop_first()),
            other => other,
        }
    }
}

/// What reading the desktop file `contents` comes to: it must begin with the
/// `[Desktop Entry]` header; then its lines are read in order.
pub open spec fn desktop_scan(contents: Seq<char>) -> ScanModel {
    if !has_prefix(contents, "[Desktop Entry]"@) {
        ScanModel::MissingHeader
    } else {
        scan_lines(empty_entry(), split_on(contents, '\n'))
    }
}

/// Whether the trimmed line `t` is one that reading passes over: blank, a
/// comment, or a line that is neither a group header nor one of the keys that
/// the launcher reads.
pub open spec fn is_ignored_line(t: Seq<char>) -> bool {
    ||| t.len() == 0
    ||| has_prefix(t, seq!['#'])
    ||| has_prefix(t, seq![';'])
    ||| !(has_prefix(t, seq!['[']) || has_prefix(t, "Exec="@) || has_prefix(t, "Name="@)
        || has_prefix(t, "Type="@) || has_prefix(t, "GenericName="@) || has_prefix(t, "Icon="@)
        || has_prefix(t, "Comment="@) || has_prefix(t, "Keywords="@) || has_prefix(t, "Terminal="@))
}

/// Reading `a + b` is reading `a`, then, unless that stopped, `b`.
pub proof fn lemma_scan_lines_append(m: EntryModel, a: Seq<Seq<char>>, b: Seq<Seq<char>>)
    ensures
        scan_lines(m, a + b) == match scan_lines(m, a) {
            ScanModel::Entry(m2) => scan_lines(m2, b),
            other => other,
        },
    decreases a.len(),
{
    if a.len() == 0 {
        assert(a + b =~= b);
    } else {
        assert((a + b)[0] == a[0]);
        assert((a + b).drop_first() =~= a.drop_first() + b);
        match scan_line(m, trim(a[0])) {
            ScanModel::Entry(m2) => lemma_scan_lines_append(m2, a.drop_first(), b),
            _ => {},
        }
    }
}

/// Lines that reading passes over leave the entry as it was.
pub proof fn lemma_ignored_lines(m: EntryModel, extra: Seq<Seq<char>>)
    requires
        forall|i: int| 0 <= i < extra.len() ==> is_ignored_line(trim(#[trigger] extra[i])),
    ensures
        scan_lines(m, extra) == ScanModel::Entry(m),
    decreases extra.len(),
{
    if extra.len() > 0 {
        assert(is_ignored_line(trim(extra[0])));
        assert(scan_line(m, trim(extra[0])) == ScanModel::Entry(m));
        assert forall|i: int| 0 <= i < extra.drop_first().len() implies is_ignored_line(
            trim(#[trigger] extra.drop_first()[i]),
        ) by {
            assert(extra.drop_first()[i] == extra[i + 1]);
        }
        lemma_ignored_lines(m, extra.drop_first());
    }
}

/// Blank lines, comments and lines of keys that the launcher does not read
/// change nothing: inserting them anywhere among a desktop file's lines gives
/// the same outcome of reading.
pub proof fn lemma_ignored_lines_change_nothing(
    m: EntryModel,
    before: Seq<Seq<char>>,
    extra: Seq<Seq<char>>,
    after: Seq<Seq<char>>,
)
    requires
        forall|i: int| 0 <= i < extra.len() ==> is_ignored_line(trim(#[trigger] extra[i])),
    ensures
        scan_lines(m, before + extra + after) == scan_lines(m, before + after),
{
    lemma_scan_lines_append(m, before, extra + after);
    lemma_scan_lines_append(m, before, after);
    assert(before + extra + after =~= before + (extra + after));
    match scan_lines(m, before) {
        ScanModel::Entry(m2) => {
            lemma_scan_lines_append(m2, extra, after);
            lemma_ignored_lines(m2, extra);
        },
        _ => {},
    }
}

/// The text of the lines `lines`, each followed by a line break.
pub open spec fn lines_text(lines: Seq<Seq<char>>) -> Seq<char>
    decreases lines.len(),
{
    if lines.len() == 0 {
        Seq::empty()
    } else {
        lines[0] + seq!['\n'] + lines_text(lines.drop_first())
    }
}

/// The lines of `lines_text(lines)` followed by `rest` are `lines` followed
/// by the lines of `rest`, when no line holds a line break.
proof fn lemma_split_lines_text(lines: Seq<Seq<char>>, rest: Seq<char>)
    requires
        forall|k: int, i: int|
            0 <= k < lines.len() && 0 <= i < lines[k].len() ==> #[trigger] lines[k][i] != '\n',
    ensures
        split_on(lines_text(lines) + rest, '\n') == lines + split_on(rest, '\n'),
    decreases lines.len(),
{
    if lines.len() == 0 {
        assert(lines_text(lines) + rest =~= rest);
        assert(lines + split_on(rest, '\n') =~= split_on(rest, '\n'));
    } else {
        let l = lines[0];
        let tail = lines.drop_first();
        assert forall|k: int, i: int| 0 <= k < tail.len() && 0 <= i < tail[k].len() implies #[trigger] tail[k][i]
            != '\n' by {
            assert(tail[k] == lines[k + 1]);
        }
        lemma_split_lines_text(tail, rest);
        assert(lines_text(lines) + rest =~= l + seq!['\n'] + (lines_text(tail) + rest));
        lemma_split_from_concat(Seq::empty(), l, lines_text(tail) + rest, '\n');
        assert forall|i: int| 0 <= i < l.len() implies #[trigger] l[i] != '\n' by {
            assert(lines[0][i] != '\n');
        }
        lemma_split_from_single(Seq::empty(), l, '\n');
        assert(Seq::<char>::empty() + l =~= l);
        assert(seq![l] + (tail + split_on(rest, '\n')) =~= lines + split_on(rest, '\n'));
    }
}

/// Blank lines, comments and lines of keys that the launcher does not read,
/// inserted into a desktop file after its first line, change nothing: the
/// file `first` + line break + `rest` and the same file with the lines
/// `extra` inserted after the line break are read alike.
pub proof fn lemma_inserted_lines_change_nothing(
    first: Seq<char>,
    rest: Seq<char>,
    extra: Seq<Seq<char>>,
)
    requires
        forall|i: int| 0 <= i < first.len() ==> #[trigger] first[i] != '\n',
        forall|k: int, i: int|
            0 <= k < extra.len() && 0 <= i < extra[k].len() ==> #[trigger] extra[k][i] != '\n',
        forall|k: int| 0 <= k < extra.len() ==> is_ignored_line(trim(#[trigger] extra[k])),
    ensures
        desktop_scan(first + seq!['\n'] + lines_text(extra) + rest) == desktop_scan(
            first + seq!['\n'] + rest,
        ),
{
    let c1 = first + seq!['\n'] + rest;
    let c2 = first + seq!['\n'] + lines_text(extra) + rest;
    assert(c2 =~= first + seq!['\n'] + (lines_text(extra) + rest));
    lemma_split_from_concat(Seq::empty(), first, lines_text(extra) + rest, '\n');
    lemma_split_from_concat(Seq::empty(), first, rest, '\n');
    lemma_split_lines_text(extra, rest);
    let head = split_on(first, '\n');
    let tail = split_on(rest, '\n');
    assert(split_on(c2, '\n') =~= head + extra + tail);
    assert(split_on(c1, '\n') == head + tail);
    lemma_ignored_lines_change_nothing(empty_entry(), head, extra, tail);
    // The header is read from the first line: both texts agree up to its end.
    let h = "[Desktop Entry]"@;
    assert(has_prefix(c1, h) == has_prefix(c2, h)) by {
        reveal_strlit("[Desktop Entry]");
        if first.len() >= h.len() {
            assert(c1.take(h.len() as int) =~= first.take(h.len() as int));
            assert(c2.take(h.len() as int) =~= first.take(h.len() as int));
        } else {
            let j = first.len() as int;
            assert(c1[j] == '\n' && c2[j] == '\n');
            assert(h[j] != '\n');
            if has_prefix(c1, h) {
                assert(c1.take(h.len() as int)[j] == c1[j]);
            }
            if has_prefix(c2, h) {
                assert(c2.take(h.len() as int)[j] == c2[j]);
            }
        }
    }
}

/// A sequence that differs from `k` at a position of both does not begin
/// with `k`.
proof fn lemma_not_prefix(t: Seq<char>, k: Seq<char>, i: int)
    requires
        0 <= i < k.len(),
        i < t.len(),
        t[i] != k[i],
    ensures
        !has_prefix(t, k),
{
    if has_prefix(t, k) {
        assert(t.take(k.len() as int)[i] == t[i]);
    }
}

/// Appending a line (without line break) to a desktop file whose reading
/// ends with the entry `m` reads that line from `m`.
proof fn lemma_scan_appended_line(c: Seq<char>, line: Seq<char>, m: EntryModel)
    requires
        desktop_scan(c) == ScanModel::Entry(m),
        forall|i: int| 0 <= i < line.len() ==> #[trigger] line[i] != '\n',
    ensures
        desktop_scan(c + seq!['\n'] + line) == match scan_line(m, trim(line)) {
            ScanModel::Entry(m2) => ScanModel::Entry(m2),
            other => other,
        },
{
    let h = "[Desktop Entry]"@;
    let c2 = c + seq!['\n'] + line;
    assert(has_prefix(c, h));
    assert(c2.take(h.len() as int) =~= c.take(h.len() as int));
    lemma_split_from_concat(Seq::empty(), c, line, '\n');
    lemma_split_from_single(Seq::empty(), line, '\n');
    assert(Seq::<char>::empty() + line =~= line);
    lemma_scan_lines_append(empty_entry(), split_on(c, '\n'), seq![line]);
    assert(seq![line][0] == line);
    assert(seq![line].drop_first() =~= Seq::<Seq<char>>::empty());
    assert(has_prefix(c2, h));
    assert(split_on(c2, '\n') == split_on(c, '\n') + seq![line]);
    assert(scan_lines(empty_entry(), split_on(c, '\n')) == ScanModel::Entry(m));
    match scan_line(m, trim(line)) {
        ScanModel::Entry(m2) => {
            assert(scan_lines(m2, Seq::<Seq<char>>::empty()) == ScanModel::Entry(m2));
        },
        _ => {},
    }
    assert(scan_lines(m, seq![line]) == match scan_line(m, trim(line)) {
        ScanModel::Entry(m2) => ScanModel::Entry(m2),
        other => other,
    });
}

/// The line `key` + `value`, where `key` is a word followed by `=` and
/// neither holds another `=`, is its own trimmed form when it does not end
/// with white space, begins with `key`, and has the value `value`.
proof fn lemma_key_line(key: Seq<char>, word: Seq<char>, value: Seq<char>)
    requires
        key == word + seq!['='],
        word.len() > 0,
        !is_white_space(word[0]),
        forall|i: int| 0 <= i < word.len() ==> #[trigger] word[i] != '=',
        forall|i: int| 0 <= i < value.len() ==> #[trigger] value[i] != '=',
        value.len() == 0 || !is_white_space(value.last()),
    ensures
        trim(key + value) == key + value,
        has_prefix(key + value, key),
        field_value(key + value) == value,
{
    let line = key + value;
    assert(line[0] == word[0]);
    assert(line.last() == if value.len() == 0 { '=' } else { value.last() });
    assert(trim_start(line) == line);
    assert(trim_end(line) == line);
    assert(line.take(key.len() as int) =~= key);
    assert(line =~= word + seq!['='] + value);
    lemma_split_from_concat(Seq::empty(), word, value, '=');
    lemma_split_from_single(Seq::empty(), word, '=');
    lemma_split_from_single(Seq::empty(), value, '=');
    assert(Seq::<char>::empty() + value =~= value);
    assert(Seq::<char>::empty() + word =~= word);
}

/// Lines that no earlier test of `scan_line` takes: not blank, not a
/// comment, not a group header.
proof fn lemma_plain_first_char(line: Seq<char>)
    requires
        line.len() > 0,
        line[0] != '#' && line[0] != ';' && line[0] != '[',
    ensures
        line.len() != 0,
        !has_prefix(line, seq!['#']),
        !has_prefix(line, seq![';']),
        !has_prefix(line, seq!['[']),
{
    lemma_prefix_one(line, '#');
    lemma_prefix_one(line, ';');
    lemma_prefix_one(line, '[');
}

/// Whether `value` can stand after a key on a line of its own: no `=`, no
/// line break, and no white space at its end.
pub open spec fn is_plain_value(value: Seq<char>) -> bool {
    &&& forall|i: int| 0 <= i < value.len() ==> #[trigger] value[i] != '=' && value[i] != '\n'
    &&& value.len() == 0 || !is_white_space(value.last())
}

proof fn lemma_line_has_no_break(key: Seq<char>, value: Seq<char>)
    requires
        forall|i: int| 0 <= i < key.len() ==> #[trigger] key[i] != '\n',
        is_plain_value(value),
    ensures
        forall|i: int| 0 <= i < (key + value).len() ==> #[trigger] (key + value)[i] != '\n',
{
    assert forall|i: int| 0 <= i < (key + value).len() implies #[trigger] (key + value)[i] != '\n' by {
        if i >= key.len() {
            assert((key + value)[i] == value[i - key.len()]);
        } else {
            assert((key + value)[i] == key[i]);
        }
    }
}

/// The keys that the launcher reads, each added as the last line of a
/// desktop file that is read as an application, set their field of the
/// entry to the line's value and leave the rest as it was: `Name=` the name,
/// `Exec=` the command, `GenericName=` the kind, `Comment=` the description,
/// `Keywords=` the keywords, and `Icon=` adds an icon value after the others.
pub proof fn lemma_key_values(c: Seq<char>, m: EntryModel, value: Seq<char>)
    requires
        desktop_scan(c) == ScanModel::Entry(m),
        is_plain_value(value),
    ensures
        desktop_scan(c + seq!['\n'] + "Name="@ + value) == ScanModel::Entry(
            EntryModel { name: value, ..m },
        ),
        desktop_scan(c + seq!['\n'] + "Exec="@ + value) == ScanModel::Entry(
            EntryModel { command: value, ..m },
        ),
        desktop_scan(c + seq!['\n'] + "GenericName="@ + value) == ScanModel::Entry(
            EntryModel { kind: Some(value), ..m },
        ),
        desktop_scan(c + seq!['\n'] + "Comment="@ + value) == ScanModel::Entry(
            EntryModel { description: Some(value), ..m },
        ),
        desktop_scan(c + seq!['\n'] + "Keywords="@ + value) == ScanModel::Entry(
            EntryModel { keywords: Some(value), ..m },
        ),
        desktop_scan(c + seq!['\n'] + "Icon="@ + value) == ScanModel::Entry(
            EntryModel { icons: m.icons.push(value), ..m },
        ),
{
    reveal_strlit("Exec=");
    reveal_strlit("Name=");
    reveal_strlit("Type=");
    reveal_strlit("GenericName=");
    reveal_strlit("Icon=");
    reveal_strlit("Comment=");
    reveal_strlit("Keywords=");
    reveal_strlit("Exec");
    reveal_strlit("Name");
    reveal_strlit("GenericName");
    reveal_strlit("Icon");
    reveal_strlit("Comment");
    reveal_strlit("Keywords");
    assert forall|i: int| 0 <= i < value.len() implies #[trigger] value[i] != '=' by {}
    // Name=
    assert("Name="@ =~= "Name"@ + seq!['=']);
    lemma_key_line("Name="@, "Name"@, value);
    lemma_plain_first_char("Name="@ + value);
    lemma_not_prefix("Name="@ + value, "Exec="@, 0);
    lemma_line_has_no_break("Name="@, value);
    lemma_scan_appended_line(c, "Name="@ + value, m);
    assert(c + seq!['\n'] + "Name="@ + value =~= c + seq!['\n'] + ("Name="@ + value));
    // Exec=
    assert("Exec="@ =~= "Exec"@ + seq!['=']);
    lemma_key_line("Exec="@, "Exec"@, value);
    lemma_plain_first_char("Exec="@ + value);
    lemma_line_has_no_break("Exec="@, value);
    lemma_scan_appended_line(c, "Exec="@ + value, m);
    assert(c + seq!['\n'] + "Exec="@ + value =~= c + seq!['\n'] + ("Exec="@ + value));
    // GenericName=
    assert("GenericName="@ =~= "GenericName"@ + seq!['=']);
    lemma_key_line("GenericName="@, "GenericName"@, value);
    lemma_plain_first_char("GenericName="@ + value);
    lemma_not_prefix("GenericName="@ + value, "Exec="@, 0);
    lemma_not_prefix("GenericName="@ + value, "Name="@, 0);
    lemma_not_prefix("GenericName="@ + value, "Type="@, 0);
    lemma_line_has_no_break("GenericName="@, value);
    lemma_scan_appended_line(c, "GenericName="@ + value, m);
    assert(c + seq!['\n'] + "GenericName="@ + value =~= c + seq!['\n'] + ("GenericName="@ + value));
    // Icon=
    assert("Icon="@ =~= "Icon"@ + seq!['=']);
    lemma_key_line("Icon="@, "Icon"@, value);
    lemma_plain_first_char("Icon="@ + value);
    lemma_not_prefix("Icon="@ + value, "Exec="@, 0);
    lemma_not_prefix("Icon="@ + value, "Name="@, 0);
    lemma_not_prefix("Icon="@ + value, "Type="@, 0);
    lemma_not_prefix("Icon="@ + value, "GenericName="@, 0);
    lemma_line_has_no_break("Icon="@, value);
    lemma_scan_appended_line(c, "Icon="@ + value, m);
    assert(c + seq!['\n'] + "Icon="@ + value =~= c + seq!['\n'] + ("Icon="@ + value));
    // Comment=
    assert("Comment="@ =~= "Comment"@ + seq!['=']);
    lemma_key_line("Comment="@, "Comment"@, value);
    lemma_plain_first_char("Comment="@ + value);
    lemma_not_prefix("Comment="@ + value, "Exec="@, 0);
    lemma_not_prefix("Comment="@ + value, "Name="@, 0);
    lemma_not_prefix("Comment="@ + value, "Type="@, 0);
    lemma_not_prefix("Comment="@ + value, "GenericName="@, 0);
    lemma_not_prefix("Comment="@ + value, "Icon="@, 0);
    lemma_line_has_no_break("Comment="@, value);
    lemma_scan_appended_line(c, "Comment="@ + value, m);
    assert(c + seq!['\n'] + "Comment="@ + value =~= c + seq!['\n'] + ("Comment="@ + value));
    // Keywords=
    assert("Keywords="@ =~= "Keywords"@ + seq!['=']);
    lemma_key_line("Keywords="@, "Keywords"@, value);
    lemma_plain_first_char("Keywords="@ + value);
    lemma_not_prefix("Keywords="@ + value, "Exec="@, 0);
    lemma_not_prefix("Keywords="@ + value, "Name="@, 0);
    lemma_not_prefix("Keywords="@ + value, "Type="@, 0);
    lemma_not_prefix("Keywords="@ + value, "GenericName="@, 0);
    lemma_not_prefix("Keywords="@ + value, "Icon="@, 0);
    lemma_not_prefix("Keywords="@ + value, "Comment="@, 0);
    lemma_line_has_no_break("Keywords="@, value);
    lemma_scan_appended_line(c, "Keywords="@ + value, m);
    assert(c + seq!['\n'] + "Keywords="@ + value =~= c + seq!['\n'] + ("Keywords="@ + value));
}

/// A `Type=` line added as the last line of a desktop file that is read as
/// an application keeps it one when its value is `Application`, and makes
/// the file refused otherwise.
pub proof fn lemma_type_values(c: Seq<char>, m: EntryModel, value: Seq<char>)
    requires
        desktop_scan(c) == ScanModel::Entry(m),
        is_plain_value(value),
    ensures
        value == "Application"@ ==> desktop_scan(c + seq!['\n'] + "Type="@ + value)
            == ScanModel::Entry(m),
        value != "Application"@ ==> desktop_scan(c + seq!['\n'] + "Type="@ + value)
            == ScanModel::NotApplication,
{
    reveal_strlit("Exec=");
    reveal_strlit("Name=");
    reveal_strlit("Type=");
    reveal_strlit("Type");
    assert forall|i: int| 0 <= i < value.len() implies #[trigger] value[i] != '=' by {}
    assert("Type="@ =~= "Type"@ + seq!['=']);
    lemma_key_line("Type="@, "Type"@, value);
    lemma_plain_first_char("Type="@ + value);
    lemma_not_prefix("Type="@ + value, "Exec="@, 0);
    lemma_not_prefix("Type="@ + value, "Name="@, 0);
    lemma_line_has_no_break("Type="@, value);
    lemma_scan_appended_line(c, "Type="@ + value, m);
    assert(c + seq!['\n'] + "Type="@ + value =~= c + seq!['\n'] + ("Type="@ + value));
}

/// A `Terminal=` line read from the entry `m`.
proof fn lemma_terminal_line_read(m: EntryModel, value: Seq<char>)
    requires
        value.len() > 0,
        !is_white_space(value.last()),
        forall|i: int| 0 <= i < value.len() ==> #[trigger] value[i] != '=',
    ensures
        ({
            let line = "Terminal="@ + value;
            &&& trim(line) == line
            &&& scan_line(m, line) == if value == "true"@ {
                ScanModel::Entry(EntryModel { terminal_app: Some(true), ..m })
            } else if value == "false"@ {
                ScanModel::Entry(EntryModel { terminal_app: Some(false), ..m })
            } else {
                ScanModel::BadTerminal
            }
        }),
{
    reveal_strlit("Terminal=");
    reveal_strlit("Terminal");
    reveal_strlit("Exec=");
    reveal_strlit("Name=");
    reveal_strlit("Type=");
    reveal_strlit("GenericName=");
    reveal_strlit("Icon=");
    reveal_strlit("Comment=");
    reveal_strlit("Keywords=");
    let line = "Terminal="@ + value;
    assert(line[0] == 'T');
    assert(line[1] == 'e');
    assert(line.last() == value.last());
    assert(trim_start(line) == line);
    assert(trim_end(line) == line);
    lemma_prefix_one(line, '#');
    lemma_prefix_one(line, ';');
    lemma_prefix_one(line, '[');
    lemma_not_prefix(line, "Exec="@, 0);
    lemma_not_prefix(line, "Name="@, 0);
    lemma_not_prefix(line, "Type="@, 1);
    lemma_not_prefix(line, "GenericName="@, 0);
    lemma_not_prefix(line, "Icon="@, 0);
    lemma_not_prefix(line, "Comment="@, 0);
    lemma_not_prefix(line, "Keywords="@, 0);
    assert(line.take("Terminal="@.len() as int) =~= "Terminal="@);
    assert(line =~= "Terminal"@ + seq!['='] + value);
    lemma_split_from_concat(Seq::empty(), "Terminal"@, value, '=');
    assert forall|i: int| 0 <= i < "Terminal"@.len() implies #[trigger] "Terminal"@[i] != '=' by {}
    lemma_split_from_single(Seq::empty(), "Terminal"@, '=');
    lemma_split_from_single(Seq::empty(), value, '=');
    assert(Seq::<char>::empty() + value =~= value);
    assert(field_value(line) == value);
}

/// A `Terminal=true` line added at the end of a desktop file that is read as
/// an application marks it as run in a terminal, `Terminal=false` as not;
/// any other value is refused. Everything else read stays as it was.
pub proof fn lemma_terminal_value(c: Seq<char>, m: EntryModel, value: Seq<char>)
    requires
        desktop_scan(c) == ScanModel::Entry(m),
        value.len() > 0,
        !is_white_space(value.last()),
        forall|i: int| 0 <= i < value.len() ==> #[trigger] value[i] != '=' && value[i] != '\n',
    ensures
        value == "true"@ ==> desktop_scan(c + seq!['\n'] + "Terminal="@ + value) == ScanModel::Entry(
            EntryModel { terminal_app: Some(true), ..m },
        ),
        value == "false"@ ==> desktop_scan(c + seq!['\n'] + "Terminal="@ + value)
            == ScanModel::Entry(EntryModel { terminal_app: Some(false), ..m }),
        value != "true"@ && value != "false"@ ==> desktop_scan(
            c + seq!['\n'] + "Terminal="@ + value,
        ) == ScanModel::BadTerminal,
{
    reveal_strlit("Terminal=");
    reveal_strlit("true");
    reveal_strlit("false");
    let line = "Terminal="@ + value;
    lemma_terminal_line_read(m, value);
    assert forall|i: int| 0 <= i < line.len() implies #[trigger] line[i] != '\n' by {
        if i >= 9 {
            assert(line[i] == value[i - 9]);
        }
    }
    lemma_scan_appended_line(c, line, m);
    assert(c + seq!['\n'] + "Terminal="@ + value =~= c + seq!['\n'] + line);
}

/// The outcome of reading a desktop file.
#[derive(Debug)]
pub enum DesktopScan {
    Entry(DesktopEntry),
    MissingHeader,
    ExtraGroup(String),
    NotApplication,
    BadTerminal,
}

impl View for DesktopScan {
    type V = ScanModel;

    open spec fn view(&self) -> ScanModel {
        match self {
            DesktopScan::Entry(e) => ScanModel::Entry(e@),
            DesktopScan::MissingHeader => ScanModel::MissingHeader,
            DesktopScan::ExtraGroup(g) => ScanModel::ExtraGroup(g@),
            DesktopScan::NotApplication => ScanModel::NotApplication,
            DesktopScan::BadTerminal => ScanModel::BadTerminal,
        }
    }
}

/// The value of `line` when it begins with `key` (which ends with `=`).
fn key_value(line: &Vec<char>, key: &Vec<char>) -> (r: Option<Vec<char>>)
    requires
        key@.len() > 0,
        key@.last() == '=',
    ensures
        r is Some <==> has_prefix(line@, key@),
        r matches Some(v) ==> v@ == field_value(line@),
{
    if !starts_with(line, key) {
        return None;
    }
    proof {
        let k: int = key@.len() - 1;
        assert(line@.take(key@.len() as int)[k] == line@[k]);
        lemma_split_from_two(Seq::empty(), line@, '=', k);
    }
    let pieces = split_vec(line, '=');
    Some(pieces[1].clone())
}


/// The characters of a literal key, which ends with `=`.
fn key_chars(key: &str) -> (r: Vec<char>)
    requires
        key@.len() > 0,
        key@.last() == '=',
    ensures
        r@ == key@,
        r@.len() > 0,
        r@.last() == '=',
{
    chars_of(key)
}

/// `Some` of the string made of `v`'s characters.
fn some_string(v: &Vec<char>) -> (r: Option<String>)
    ensures
        opt_view(r) == Some(v@),
{
    Some(string_of(v))
}

/// Reads the desktop file `contents`: checks the `[Desktop Entry]` header,
/// then reads each trimmed line in order, keeping the values of the keys that
/// the launcher uses and stopping at the first line that it refuses.
pub fn scan_desktop_file(contents: &str) -> (r: DesktopScan)
    ensures
        r@ == desktop_scan(contents@),
{
    let text = chars_of(contents);
    let header = chars_of("[Desktop Entry]");
    if !starts_with(&text, &header) {
        return DesktopScan::MissingHeader;
    }
    proof {
        reveal_strlit("Exec=");
        reveal_strlit("Name=");
        reveal_strlit("Type=");
        reveal_strlit("GenericName=");
        reveal_strlit("Icon=");
        reveal_strlit("Comment=");
        reveal_strlit("Keywords=");
        reveal_strlit("Terminal=");
    }
    let k_exec = key_chars("Exec=");
    let k_name = key_chars("Name=");
    let k_type = key_chars("Type=");
    let k_generic = key_chars("GenericName=");
    let k_icon = key_chars("Icon=");
    let k_comment = key_chars("Comment=");
    let k_keywords = key_chars("Keywords=");
    let k_terminal = key_chars("Terminal=");
    let application = chars_of("Application");
    let yes = chars_of("true");
    let no = chars_of("false");
    let lines = split_vec(&text, '\n');
    let ghost all = split_on(contents@, '\n');
    let mut e = DesktopEntry {
        name: String::new(),
        command: String::new(),
        kind: None,
        icons: Vec::new(),
        description: None,
        terminal_app: None,
        keywords: None,
    };
    assert(e@.icons =~= Seq::<Seq<char>>::empty());
    assert(e@ == empty_entry());
    assert(all.skip(0) =~= all);
    let mut i: usize = 0;
    while i < lines.len()
        invariant
            i <= lines@.len(),
            text@ == contents@,
            has_prefix(contents@, "[Desktop Entry]"@),
            header@ == "[Desktop Entry]"@,
            k_exec@ == "Exec="@,
            k_name@ == "Name="@,
            k_type@ == "Type="@,
            k_generic@ == "GenericName="@,
            k_icon@ == "Icon="@,
            k_comment@ == "Comment="@,
            k_keywords@ == "Keywords="@,
            k_terminal@ == "Terminal="@,
            k_exec@.len() > 0 && k_exec@.last() == '=',
            k_name@.len() > 0 && k_name@.last() == '=',
            k_type@.len() > 0 && k_type@.last() == '=',
            k_generic@.len() > 0 && k_generic@.last() == '=',
            k_icon@.len() > 0 && k_icon@.last() == '=',
            k_comment@.len() > 0 && k_comment@.last() == '=',
            k_keywords@.len() > 0 && k_keywords@.last() == '=',
            k_terminal@.len() > 0 && k_terminal@.last() == '=',
            application@ == "Application"@,
            yes@ == "true"@,
            no@ == "false"@,
            all == split_on(contents@, '\n'),
            lines@.len() == all.len(),
            forall|k: int| 0 <= k < lines@.len() ==> #[trigger] lines@[k]@ == all[k],
            scan_lines(empty_entry(), all) == scan_lines(e@, all.skip(i as int)),
        decreases lines@.len() - i,
    {
        let t = trim_vec(&lines[i]);
        let ghost m = e@;
        let ghost rest = all.skip(i as int);
        assert(rest[0] == lines@[i as int]@);
        assert(rest.drop_first() =~= all.skip(i + 1));
        assert(scan_lines(m, rest) == match scan_line(m, t@) {
            ScanModel::Entry(m2) => scan_lines(m2, all.skip(i + 1)),
            other => other,
        });
        if t.len() > 0 {
            proof {
                lemma_prefix_one(t@, '#');
                lemma_prefix_one(t@, ';');
                lemma_prefix_one(t@, '[');
            }
        }
        if t.len() == 0 || t[0] == '#' || t[0] == ';' {
        } else if t[0] == '[' {
            if !chars_eq(&t, &header) {
                return DesktopScan::ExtraGroup(string_of(&t));
            }
        } else if let Some(v) = key_value(&t, &k_exec) {
            e.command = string_of(&v);
        } else if let Some(v) = key_value(&t, &k_name) {
            e.name = string_of(&v);
        } else if let Some(v) = key_value(&t, &k_type) {
            if !chars_eq(&v, &application) {
                return DesktopScan::NotApplication;
            }
        } else if let Some(v) = key_value(&t, &k_generic) {
            e.kind = some_string(&v);
        } else if let Some(v) = key_value(&t, &k_icon) {
            let ghost before = e.icons@;
            e.icons.push(string_of(&v));
            assert(e.icons@.map_values(|s: String| s@) =~= before.map_values(|s: String| s@).push(v@));
        } else if let Some(v) = key_value(&t, &k_comment) {
            e.description = some_string(&v);
        } else if let Some(v) = key_value(&t, &k_keywords) {
            e.keywords = some_string(&v);
        } else if let Some(v) = key_value(&t, &k_terminal) {
            if chars_eq(&v, &yes) {
                e.terminal_app = Some(true);
            } else if chars_eq(&v, &no) {
                e.terminal_app = Some(false);
            } else {
                return DesktopScan::BadTerminal;
            }
        }
        assert(scan_line(m, t@) == ScanModel::Entry(e@));
        i = i + 1;
    }
    assert(all.skip(i as int) =~= Seq::<Seq<char>>::empty());
    DesktopScan::Entry(e)
}


/// Why a desktop file is not taken as an application.
#[derive(Debug)]
pub enum DesktopFileError {
    /// The file does not begin with `[Desktop Entry]`.
    MissingHeader,
    /// The file has a group other than `[Desktop Entry]`: its header line.
    ExtraGroup(String),
    /// The file's `Type` is not `Application`.
    NotApplication,
}

impl DesktopFileError {
    /// The message that reports this error for the file at `path`.
    pub fn message(&self, path: &str) -> (r: String)
        ensures
            r@ == match self {
                DesktopFileError::MissingHeader => path@
                    + " is not a valid desktop file missing [Desktop Entry]"@,
                DesktopFileError::ExtraGroup(line) => path@
                    + " is not a supported desktop file It has an extra group "@ + line@,
                DesktopFileError::NotApplication => path@
                    + " is not a supported desktop file we only work with applications"@,
            },
    {
        let mut r = String::from_str(path);
        match self {
            DesktopFileError::MissingHeader => {
                r.append(" is not a valid desktop file missing [Desktop Entry]");
            },
            DesktopFileError::ExtraGroup(line) => {
                r.append(" is not a supported desktop file It has an extra group ");
                r.append(line.as_str());
            },
            DesktopFileError::NotApplication => {
                r.append(" is not a supported desktop file we only work with applications");
            },
        }
        r
    }
}

} // verus!
