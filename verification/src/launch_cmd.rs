use vstd::prelude::*;

use crate::platform_layer::Item;
use crate::text::{
    chars_of, has_prefix, is_white_space, lemma_words_shape, split_on, split_vec, starts_with,
    string_of, words, words_from, words_vec,
};

verus! {

/// The state of the left-to-right pass over an `Exec=` value that drops the
/// quoting and escaping characters.
pub struct DescapeState {
    pub quoted: bool,
    pub escaped: bool,
    pub out: Seq<char>,
}

/// What a quoted space becomes until the command line is split into words.
pub open spec fn space_marker() -> Seq<char> {
    seq!['~', '~', '|']
}

/// Characters that are kept only inside quotes.
pub open spec fn is_quote_only(c: char) -> bool {
    c == '\t' || c == '\n' || c == '\'' || c == '>' || c == '<' || c == '~' || c == '|' || c
        == '&' || c == ';' || c == '*' || c == '#' || c == '?' || c == '(' || c == ')'
}

/// One step of the pass: how the state changes on reading `c`.
pub open spec fn descape_step(st: DescapeState, c: char) -> DescapeState {
    let kept = DescapeState { quoted: st.quoted, escaped: false, out: st.out.push(c) };
    if c == '"' {
        if st.quoted && st.escaped {
            kept
        } else if st.quoted {
            DescapeState { quoted: false, ..st }
        } else {
            DescapeState { quoted: true, ..st }
        }
    } else if c == '\\' {
        if st.quoted && st.escaped {
            kept
        } else if st.quoted {
            DescapeState { escaped: true, ..st }
        } else {
            st
        }
    } else if c == '`' || c == '$' {
        if st.quoted && st.escaped {
            kept
        } else {
            st
        }
    } else if c == ' ' {
        if st.quoted {
            DescapeState { out: st.out + space_marker(), ..st }
        } else {
            DescapeState { out: st.out.push(c), ..st }
        }
    } else if is_quote_only(c) {
        if st.quoted {
            DescapeState { out: st.out.push(c), ..st }
        } else {
            st
        }
    } else {
        DescapeState { out: st.out.push(c), ..st }
    }
}

/// The state after reading all of `s`, starting from `st`.
pub open spec fn descape_from(st: DescapeState, s: Seq<char>) -> DescapeState
    decreases s.len(),
{
    if s.len() == 0 {
        st
    } else {
        descape_from(descape_step(st, s[0]), s.drop_first())
    }
}

/// The `Exec=` value with quoting and escaping removed, quoted spaces marked.
pub open spec fn descape(s: Seq<char>) -> Seq<char> {
    descape_from(DescapeState { quoted: false, escaped: false, out: Seq::empty() }, s).out
}

/// `s` with each occurrence of the space marker, left to right, made a space
/// (`str::replace`).
pub open spec fn unmark_spaces(s: Seq<char>) -> Seq<char>
    decreases s.len(),
{
    if s.len() >= 3 && s.take(3) == space_marker() {
        seq![' '] + unmark_spaces(s.skip(3))
    } else if s.len() > 0 {
        seq![s[0]] + unmark_spaces(s.drop_first())
    } else {
        Seq::empty()
    }
}

/// Whether `w` is one of the desktop-entry field codes that the launcher drops.
pub open spec fn is_field_code(w: Seq<char>) -> bool {
    w.len() == 2 && w[0] == '%' && (w[1] == 'i' || w[1] == 'c' || w[1] == 'k' || w[1] == 'f'
        || w[1] == 'F' || w[1] == 'u' || w[1] == 'U' || w[1] == 'd' || w[1] == 'D' || w[1] == 'n'
        || w[1] == 'N' || w[1] == 'v' || w[1] == 'm')
}

/// `ws` without the field codes, order kept.
pub open spec fn drop_field_codes(ws: Seq<Seq<char>>) -> Seq<Seq<char>>
    decreases ws.len(),
{
    if ws.len() == 0 {
        Seq::empty()
    } else {
        let rest = drop_field_codes(ws.drop_last());
        if is_field_code(ws.last()) {
            rest
        } else {
            rest.push(ws.last())
        }
    }
}

/// The command line that an `Exec=` value stands for, before the program is
/// looked up: the words of the unquoted value, quoted spaces restored, field
/// codes dropped.
pub open spec fn exec_arguments(source: Seq<char>) -> Seq<Seq<char>> {
    drop_field_codes(words(descape(source)).map_values(|w: Seq<char>| unmark_spaces(w)))
}

/// The places where `get_path` looks for a program named `source`: each
/// directory of the `:`-separated list `path_dirs`, followed by `/` and `source`.
pub open spec fn path_candidates(source: Seq<char>, path_dirs: Seq<char>) -> Seq<Seq<char>> {
    split_on(path_dirs, ':').map_values(|d: Seq<char>| d + seq!['/'] + source)
}

/// The first of `cands` whose answer in `found` is true (answers past the
/// end of `found` count as false), or the empty sequence when there is none.
pub open spec fn first_found(cands: Seq<Seq<char>>, found: Seq<bool>) -> Seq<char>
    decreases cands.len(),
{
    if cands.len() == 0 || found.len() == 0 {
        Seq::empty()
    } else if found[0] {
        cands[0]
    } else {
        first_found(cands.drop_first(), found.drop_first())
    }
}

/// What `get_path` gives for `source` when `found` holds, for each
/// candidate, whether something exists there: an absolute `source` itself;
/// otherwise the first candidate found, or the empty string.
pub open spec fn program_lookup(source: Seq<char>, path_dirs: Seq<char>, found: Seq<bool>) -> Seq<
    char,
> {
    if has_prefix(source, seq!['/']) {
        source
    } else {
        first_found(path_candidates(source, path_dirs), found)
    }
}

/// Whether the answers `found` are those that the file system gave when asked
/// about the candidates `cands` in order, up to and including the first yes
/// (later candidates are not asked).
pub open spec fn answers_given(cands: Seq<Seq<char>>, found: Seq<bool>) -> bool {
    forall|k: int|
        0 <= k < found.len() && k < cands.len() && (forall|j: int| 0 <= j < k ==> !found[j])
            ==> answered(cands[k], #[trigger] found[k])
}

/// Whether `found` holds the file system's answers for the candidates of
/// `source` (nothing is asked about an absolute path).
pub open spec fn is_answered_lookup(source: Seq<char>, path_dirs: Seq<char>, found: Seq<bool>) -> bool {
    has_prefix(source, seq!['/']) || answers_given(path_candidates(source, path_dirs), found)
}

/// Whether `r` is what `get_path` gives for `source` given the answers that
/// the file system gave, one per candidate.
pub open spec fn is_program_lookup(source: Seq<char>, path_dirs: Seq<char>, r: Seq<char>) -> bool {
    exists|found: Seq<bool>|
        found.len() == path_candidates(source, path_dirs).len() && r == #[trigger] program_lookup(
            source,
            path_dirs,
            found,
        ) && is_answered_lookup(source, path_dirs, found)
}

/// Whether `cmd` is what `LaunchCmd::new` builds from the `Exec=` value
/// `source` when the file system answers `found` for the program's
/// candidates: the arguments of `exec_arguments`, the program looked up.
pub open spec fn is_launch_cmd_with(
    cmd: Seq<Seq<char>>,
    source: Seq<char>,
    path_dirs: Seq<char>,
    found: Seq<bool>,
) -> bool {
    &&& cmd.len() == exec_arguments(source).len()
    &&& forall|k: int| 1 <= k < cmd.len() ==> #[trigger] cmd[k] == exec_arguments(source)[k]
    &&& cmd.len() > 0 ==> cmd[0] == program_lookup(exec_arguments(source)[0], path_dirs, found)
}

/// Whether `cmd` is what `LaunchCmd::new` builds from the `Exec=` value
/// `source` for some answers of the file system.
pub open spec fn is_launch_cmd_of(cmd: Seq<Seq<char>>, source: Seq<char>, path_dirs: Seq<char>) -> bool {
    exists|found: Seq<bool>|
        #[trigger] is_launch_cmd_with(cmd, source, path_dirs, found) && (cmd.len() > 0
            ==> is_answered_lookup(exec_arguments(source)[0], path_dirs, found))
}

/// The arguments of a command: the program first.
#[derive(Debug)]
pub struct LaunchCmd {
    pub arguments: Vec<String>,
}

impl View for LaunchCmd {
    type V = Seq<Seq<char>>;

    open spec fn view(&self) -> Seq<Seq<char>> {
        self.arguments@.map_values(|a: String| a@)
    }
}

impl Clone for LaunchCmd {
    fn clone(&self) -> (r: Self)
        ensures
            r@ == self@,
    {
        let arguments = self.arguments.clone();
        assert(arguments@.map_values(|a: String| a@) =~= self.arguments@.map_values(|a: String| a@));
        LaunchCmd { arguments }
    }
}

impl Default for LaunchCmd {
    fn default() -> (r: Self)
        ensures
            r@ == Seq::<Seq<char>>::empty(),
    {
        let r = LaunchCmd { arguments: Vec::new() };
        assert(r@ =~= Seq::<Seq<char>>::empty());
        r
    }
}

/// The `Exec=` value with its quoting and escaping removed.
pub fn descape_vec(src: &Vec<char>) -> (r: Vec<char>)
    ensures
        r@ == descape(src@),
{
    let mut quoted = false;
    let mut escaped = false;
    let mut out: Vec<char> = Vec::new();
    let mut i: usize = 0;
    let ghost init = DescapeState { quoted: false, escaped: false, out: Seq::empty() };
    assert(src@.skip(0) =~= src@);
    while i < src.len()
        invariant
            i <= src@.len(),
            descape_from(init, src@) == descape_from(
                DescapeState { quoted, escaped, out: out@ },
                src@.skip(i as int),
            ),
        decreases src@.len() - i,
    {
        let c = src[i];
        let ghost before = DescapeState { quoted, escaped, out: out@ };
        assert(src@.skip(i as int).drop_first() =~= src@.skip(i + 1));
        assert(src@.skip(i as int)[0] == c);
        if c == '"' {
            if quoted && escaped {
                out.push(c);
                escaped = false;
            } else if quoted {
                quoted = false;
            } else {
                quoted = true;
            }
        } else if c == '\\' {
            if quoted && escaped {
                out.push(c);
                escaped = false;
            } else if quoted {
                escaped = true;
            }
        } else if c == '`' || c == '$' {
            if quoted && escaped {
                out.push(c);
                escaped = false;
            }
        } else if c == ' ' {
            if quoted {
                out.push('~');
                out.push('~');
                out.push('|');
                assert(out@ =~= before.out + space_marker());
            } else {
                out.push(c);
            }
        } else if c == '\t' || c == '\n' || c == '\'' || c == '>' || c == '<' || c == '~' || c
            == '|' || c == '&' || c == ';' || c == '*' || c == '#' || c == '?' || c == '(' || c
            == ')' {
            if quoted {
                out.push(c);
            }
        } else {
            out.push(c);
        }
        assert(descape_step(before, c) == DescapeState { quoted, escaped, out: out@ });
        i = i + 1;
    }
    assert(src@.skip(i as int) =~= Seq::<char>::empty());
    out
}


/// `w` with each space marker made a space again.
pub fn unmark_spaces_vec(w: &Vec<char>) -> (r: Vec<char>)
    ensures
        r@ == unmark_spaces(w@),
{
    let mut out: Vec<char> = Vec::new();
    let mut i: usize = 0;
    assert(w@.skip(0) =~= w@);
    while i < w.len()
        invariant
            i <= w@.len(),
            unmark_spaces(w@) == out@ + unmark_spaces(w@.skip(i as int)),
        decreases w@.len() - i,
    {
        let ghost rest = w@.skip(i as int);
        if w.len() - i >= 3 && w[i] == '~' && w[i + 1] == '~' && w[i + 2] == '|' {
            assert(rest.take(3) =~= space_marker());
            assert(rest.skip(3) =~= w@.skip(i + 3));
            assert(out@ + (seq![' '] + unmark_spaces(w@.skip(i + 3))) =~= out@.push(' ')
                + unmark_spaces(w@.skip(i + 3)));
            out.push(' ');
            i = i + 3;
        } else {
            assert(!(rest.len() >= 3 && rest.take(3) == space_marker())) by {
                if rest.len() >= 3 && rest.take(3) == space_marker() {
                    assert(rest.take(3)[0] == w@[i as int]);
                    assert(rest.take(3)[1] == w@[i + 1]);
                    assert(rest.take(3)[2] == w@[i + 2]);
                }
            }
            assert(rest.drop_first() =~= w@.skip(i + 1));
            assert(out@ + (seq![w@[i as int]] + unmark_spaces(w@.skip(i + 1))) =~= out@.push(w@[i as int])
                + unmark_spaces(w@.skip(i + 1)));
            out.push(w[i]);
            i = i + 1;
        }
    }
    assert(w@.skip(i as int) =~= Seq::<char>::empty());
    assert(out@ + Seq::<char>::empty() =~= out@);
    out
}

/// Whether `w` is one of the field codes.
pub fn is_field_code_vec(w: &Vec<char>) -> (r: bool)
    ensures
        r == is_field_code(w@),
{
    if w.len() != 2 || w[0] != '%' {
        return false;
    }
    let c = w[1];
    c == 'i' || c == 'c' || c == 'k' || c == 'f' || c == 'F' || c == 'u' || c == 'U' || c == 'd'
        || c == 'D' || c == 'n' || c == 'N' || c == 'v' || c == 'm'
}

/// The command line that an `Exec=` value stands for, the program not yet
/// looked up.
pub fn parse_exec(source: &str) -> (r: Vec<String>)
    ensures
        r@.map_values(|a: String| a@) == exec_arguments(source@),
{
    let src = chars_of(source);
    let descaped = descape_vec(&src);
    let ws = words_vec(&descaped);
    let ghost unmarked = words(descape(source@)).map_values(|w: Seq<char>| unmark_spaces(w));
    let mut r: Vec<String> = Vec::new();
    let mut i: usize = 0;
    while i < ws.len()
        invariant
            i <= ws@.len(),
            ws@.len() == words(descape(source@)).len(),
            forall|k: int| 0 <= k < ws@.len() ==> #[trigger] ws@[k]@ == words(descape(source@))[k],
            unmarked == words(descape(source@)).map_values(|w: Seq<char>| unmark_spaces(w)),
            r@.map_values(|a: String| a@) == drop_field_codes(unmarked.take(i as int)),
        decreases ws@.len() - i,
    {
        let w = unmark_spaces_vec(&ws[i]);
        assert(unmarked.take(i + 1).drop_last() =~= unmarked.take(i as int));
        assert(unmarked.take(i + 1).last() == w@);
        if !is_field_code_vec(&w) {
            let a = string_of(&w);
            let ghost before = r@.map_values(|a: String| a@);
            r.push(a);
            assert(r@.map_values(|a: String| a@) =~= before.push(w@));
        }
        i = i + 1;
    }
    assert(unmarked.take(ws@.len() as int) =~= unmarked);
    r
}

/// Whether something exists at `path`, by `std::path::Path::exists`. What it
/// answers depends on the file system at the time of the call, so the
/// contract claims nothing of it.
#[verifier::external_body]
pub(crate) fn path_exists(path: &str) -> bool {
    std::path::Path::new(path).exists()
}

/// Whether the file system answered `exists` when asked about `path`.
pub closed spec fn answered(path: Seq<char>, exists: bool) -> bool {
    exists|p: &str| p@ == path && #[trigger] call_ensures(path_exists, (p,), exists)
}

/// Asks the file system whether something exists at `path`, recording the
/// answer.
fn ask_exists(path: &str) -> (r: bool)
    ensures
        answered(path@, r),
{
    path_exists(path)
}

/// The candidate paths of the program `source` in the directories of
/// `path_dirs`, in order.
pub fn program_candidates(source: &str, path_dirs: &str) -> (r: Vec<String>)
    ensures
        r@.map_values(|c: String| c@) == path_candidates(source@, path_dirs@),
{
    let src = chars_of(source);
    let dirs = split_vec(&chars_of(path_dirs), ':');
    let ghost cands = path_candidates(source@, path_dirs@);
    let mut r: Vec<String> = Vec::new();
    let mut i: usize = 0;
    while i < dirs.len()
        invariant
            i <= dirs@.len(),
            src@ == source@,
            dirs@.len() == split_on(path_dirs@, ':').len(),
            forall|k: int| 0 <= k < dirs@.len() ==> #[trigger] dirs@[k]@ == split_on(path_dirs@, ':')[k],
            cands == path_candidates(source@, path_dirs@),
            r@.map_values(|c: String| c@) == cands.take(i as int),
        decreases dirs@.len() - i,
    {
        let mut cand: Vec<char> = dirs[i].clone();
        cand.push('/');
        let mut j: usize = 0;
        let ghost base = cand@;
        while j < src.len()
            invariant
                j <= src@.len(),
                cand@ == base + src@.take(j as int),
            decreases src@.len() - j,
        {
            assert(src@.take(j + 1) =~= src@.take(j as int).push(src@[j as int]));
            cand.push(src[j]);
            j = j + 1;
        }
        assert(src@.take(src@.len() as int) =~= src@);
        let s = string_of(&cand);
        assert(s@ == cands[i as int]);
        let ghost before = r@;
        r.push(s);
        assert(r@.map_values(|c: String| c@) =~= before.map_values(|c: String| c@).push(s@));
        assert(cands.take(i + 1) =~= cands.take(i as int).push(cands[i as int]));
        i = i + 1;
    }
    assert(cands.take(dirs@.len() as int) =~= cands);
    r
}

/// The first of `cands` whose answer in `found` is true, or the empty string.
pub fn find_first(cands: &Vec<String>, found: &Vec<bool>) -> (r: String)
    requires
        found@.len() == cands@.len(),
    ensures
        r@ == first_found(cands@.map_values(|c: String| c@), found@),
{
    let ghost cs = cands@.map_values(|c: String| c@);
    let mut i: usize = 0;
    assert(cs.skip(0) =~= cs);
    assert(found@.skip(0) =~= found@);
    while i < cands.len()
        invariant
            i <= cands@.len(),
            found@.len() == cands@.len(),
            cs == cands@.map_values(|c: String| c@),
            first_found(cs, found@) == first_found(cs.skip(i as int), found@.skip(i as int)),
        decreases cands@.len() - i,
    {
        assert(cs.skip(i as int)[0] == cands@[i as int]@);
        assert(found@.skip(i as int)[0] == found@[i as int]);
        if found[i] {
            return cands[i].clone();
        }
        assert(cs.skip(i as int).drop_first() =~= cs.skip(i + 1));
        assert(found@.skip(i as int).drop_first() =~= found@.skip(i + 1));
        i = i + 1;
    }
    assert(cs.skip(i as int).len() == 0);
    String::new()
}

/// Looks `source` up as a program: an absolute path is kept; otherwise each
/// candidate of `path_candidates` is asked in turn whether it exists, until
/// one does, and the first that does is taken (the empty string when none
/// does).
pub fn get_path(source: String, path_dirs: &str) -> (r: String)
    ensures
        is_program_lookup(source@, path_dirs@, r@),
{
    let src = chars_of(source.as_str());
    let slash: Vec<char> = vec!['/'];
    assert(slash@ =~= seq!['/']);
    if starts_with(&src, &slash) {
        let ghost found = Seq::new(path_candidates(source@, path_dirs@).len(), |k: int| false);
        assert(source@ == program_lookup(source@, path_dirs@, found));
        return source;
    }
    let cands = program_candidates(source.as_str(), path_dirs);
    let ghost cs = cands@.map_values(|c: String| c@);
    let mut found: Vec<bool> = Vec::new();
    let mut hit = false;
    let mut i: usize = 0;
    while i < cands.len()
        invariant
            i <= cands@.len(),
            found@.len() == i,
            cs == cands@.map_values(|c: String| c@),
            hit <==> exists|j: int| 0 <= j < i && found@[j],
            forall|k: int|
                0 <= k < i && (forall|j: int| 0 <= j < k ==> !found@[j]) ==> answered(
                    cs[k],
                    #[trigger] found@[k],
                ),
        decreases cands@.len() - i,
    {
        let ghost before = found@;
        let ghost was_hit = hit;
        if hit {
            found.push(false);
        } else {
            let answer = ask_exists(cands[i].as_str());
            hit = answer;
            found.push(answer);
        }
        proof {
            if was_hit {
                let j0 = choose|j: int| 0 <= j < i && before[j];
                assert(found@[j0] == before[j0]);
            } else if hit {
                assert(found@[i as int]);
            } else {
                assert forall|j: int| 0 <= j < i + 1 implies !found@[j] by {
                    if j < i {
                        assert(found@[j] == before[j]);
                    }
                }
            }
        }
        assert forall|k: int|
            0 <= k < i + 1 && (forall|j: int| 0 <= j < k ==> !found@[j]) implies answered(
            cs[k],
            #[trigger] found@[k],
        ) by {
            if k < i {
                assert(found@[k] == before[k]);
                assert forall|j: int| 0 <= j < k implies !before[j] by {
                    assert(found@[j] == before[j]);
                }
            } else if hit && found@[k] == false {
                let j0 = choose|j: int| 0 <= j < i && before[j];
                assert(found@[j0] == before[j0]);
            }
        }
        i = i + 1;
    }
    let r = find_first(&cands, &found);
    assert(r@ == program_lookup(source@, path_dirs@, found@));
    assert(answers_given(path_candidates(source@, path_dirs@), found@));
    r
}

/// `first_found` picks the candidate at the first true answer, or nothing.
proof fn lemma_first_found(cands: Seq<Seq<char>>, found: Seq<bool>)
    requires
        found.len() == cands.len(),
    ensures
        (forall|j: int| 0 <= j < found.len() ==> !found[j]) ==> first_found(cands, found).len() == 0,
        forall|k: int|
            0 <= k < found.len() && found[k] && (forall|j: int| 0 <= j < k ==> !found[j])
                ==> first_found(cands, found) == cands[k],
    decreases cands.len(),
{
    if cands.len() > 0 {
        lemma_first_found(cands.drop_first(), found.drop_first());
        assert forall|k: int|
            0 <= k < found.len() && found[k] && (forall|j: int| 0 <= j < k ==> !found[j])
                implies first_found(cands, found) == cands[k] by {
            if k > 0 {
                assert(!found[0]);
                assert(found.drop_first()[k - 1] == found[k]);
                assert(cands.drop_first()[k - 1] == cands[k]);
                assert forall|j: int| 0 <= j < k - 1 implies !found.drop_first()[j] by {
                    assert(found.drop_first()[j] == found[j + 1]);
                }
            }
        }
        if forall|j: int| 0 <= j < found.len() ==> !found[j] {
            assert(!found[0]);
            assert forall|j: int| 0 <= j < found.drop_first().len() implies !found.drop_first()[j] by {
                assert(found.drop_first()[j] == found[j + 1]);
            }
        }
    }
}

/// The index of the first true answer.
proof fn lemma_first_true(found: Seq<bool>) -> (k: int)
    requires
        exists|j: int| 0 <= j < found.len() && found[j],
    ensures
        0 <= k < found.len(),
        found[k],
        forall|j: int| 0 <= j < k ==> !found[j],
    decreases found.len(),
{
    if found[0] {
        0
    } else {
        let j0 = choose|j: int| 0 <= j < found.len() && found[j];
        assert(found.drop_first()[j0 - 1] == found[j0]);
        let k = lemma_first_true(found.drop_first());
        assert forall|j: int| 0 <= j < k + 1 implies !found[j] by {
            if j > 0 {
                assert(found[j] == found.drop_first()[j - 1]);
            }
        }
        k + 1
    }
}

/// A program named without a path is looked up in the order of `PATH`: what
/// is found is the first candidate about which the file system answered yes,
/// every earlier candidate having been asked and answered no; when nothing is
/// found, every candidate was asked and answered no.
pub proof fn lemma_lookup_takes_first_existing(source: Seq<char>, path_dirs: Seq<char>, r: Seq<char>)
    requires
        !has_prefix(source, seq!['/']),
        is_program_lookup(source, path_dirs, r),
    ensures
        r.len() > 0 ==> exists|k: int|
            0 <= k < path_candidates(source, path_dirs).len() && r == path_candidates(
                source,
                path_dirs,
            )[k] && answered(path_candidates(source, path_dirs)[k], true) && forall|j: int|
                0 <= j < k ==> answered(#[trigger] path_candidates(source, path_dirs)[j], false),
        r.len() == 0 ==> forall|k: int|
            0 <= k < path_candidates(source, path_dirs).len() ==> answered(
                #[trigger] path_candidates(source, path_dirs)[k],
                false,
            ),
{
    let cands = path_candidates(source, path_dirs);
    let found = choose|found: Seq<bool>|
        found.len() == cands.len() && r == #[trigger] program_lookup(source, path_dirs, found)
            && is_answered_lookup(source, path_dirs, found);
    lemma_first_found(cands, found);
    if exists|j: int| 0 <= j < found.len() && found[j] {
        let k = lemma_first_true(found);
        assert(r == cands[k]);
        assert(answered(cands[k], found[k]));
        assert forall|j: int| 0 <= j < k implies answered(#[trigger] cands[j], false) by {
            assert forall|i: int| 0 <= i < j implies !found[i] by {}
            assert(answered(cands[j], found[j]));
        }
        assert(r.len() > 0) by {
            assert(cands[k] == split_on(path_dirs, ':')[k] + seq!['/'] + source);
        }
    } else {
        assert(r.len() == 0);
        assert forall|k: int| 0 <= k < cands.len() implies answered(#[trigger] cands[k], false) by {
            assert forall|i: int| 0 <= i < k implies !found[i] by {}
            assert(answered(cands[k], found[k]));
        }
    }
}

/// The command built from an `Exec=` value depends on nothing but the value,
/// the `PATH` directories and what the file system answers for the program's
/// candidates: the item handed to `LaunchCmd::new` plays no part in it.
pub proof fn lemma_launch_cmd_determined(
    c1: Seq<Seq<char>>,
    c2: Seq<Seq<char>>,
    source: Seq<char>,
    path_dirs: Seq<char>,
    found: Seq<bool>,
)
    requires
        is_launch_cmd_with(c1, source, path_dirs, found),
        is_launch_cmd_with(c2, source, path_dirs, found),
    ensures
        c1 == c2,
{
    assert(c1 =~= c2) by {
        assert forall|k: int| 0 <= k < c1.len() implies c1[k] == c2[k] by {
            if k > 0 {
                assert(c1[k] == exec_arguments(source)[k]);
                assert(c2[k] == exec_arguments(source)[k]);
            }
        }
    }
}

impl LaunchCmd {
    /// Builds the command line of an `Exec=` value: quoting and escaping
    /// removed, split into words, field codes dropped, and the program looked
    /// up in the directories of `path_dirs` (the value of `PATH`).
    pub fn new(source: String, item: &Item, path_dirs: &str) -> (r: Self)
        ensures
            is_launch_cmd_of(r@, source@, path_dirs@),
    {
        let mut arguments = parse_exec(source.as_str());
        if arguments.len() > 0 {
            let program = get_path(arguments[0].clone(), path_dirs);
            let ghost before = arguments@;
            arguments.set(0, program);
            assert(arguments@ == before.update(0, program));
            let ghost found = choose|found: Seq<bool>|
                found.len() == path_candidates(before[0]@, path_dirs@).len() && program@
                    == #[trigger] program_lookup(before[0]@, path_dirs@, found)
                    && is_answered_lookup(before[0]@, path_dirs@, found);
            assert(is_launch_cmd_with(LaunchCmd { arguments }@, source@, path_dirs@, found));
        } else {
            assert(is_launch_cmd_with(LaunchCmd { arguments }@, source@, path_dirs@, Seq::empty()));
        }
        LaunchCmd { arguments }
    }
}


/// The thirteen field codes of the desktop entry specification that a
/// command line leaves out, as written: `%i`, `%c`, `%k`, `%f`, `%F`, `%u`,
/// `%U`, `%d`, `%D`, `%n`, `%N`, `%v`, `%m`.
pub open spec fn is_listed_field_code(w: Seq<char>) -> bool {
    ||| w == "%i"@
    ||| w == "%c"@
    ||| w == "%k"@
    ||| w == "%f"@
    ||| w == "%F"@
    ||| w == "%u"@
    ||| w == "%U"@
    ||| w == "%d"@
    ||| w == "%D"@
    ||| w == "%n"@
    ||| w == "%N"@
    ||| w == "%v"@
    ||| w == "%m"@
}

proof fn lemma_field_code_literals(w: Seq<char>)
    ensures
        is_field_code(w) == is_listed_field_code(w),
{
    reveal_strlit("%i");
    reveal_strlit("%c");
    reveal_strlit("%k");
    reveal_strlit("%f");
    reveal_strlit("%F");
    reveal_strlit("%u");
    reveal_strlit("%U");
    reveal_strlit("%d");
    reveal_strlit("%D");
    reveal_strlit("%n");
    reveal_strlit("%N");
    reveal_strlit("%v");
    reveal_strlit("%m");
    assert("%i"@ =~= seq!['%', 'i']);
    assert("%c"@ =~= seq!['%', 'c']);
    assert("%k"@ =~= seq!['%', 'k']);
    assert("%f"@ =~= seq!['%', 'f']);
    assert("%F"@ =~= seq!['%', 'F']);
    assert("%u"@ =~= seq!['%', 'u']);
    assert("%U"@ =~= seq!['%', 'U']);
    assert("%d"@ =~= seq!['%', 'd']);
    assert("%D"@ =~= seq!['%', 'D']);
    assert("%n"@ =~= seq!['%', 'n']);
    assert("%N"@ =~= seq!['%', 'N']);
    assert("%v"@ =~= seq!['%', 'v']);
    assert("%m"@ =~= seq!['%', 'm']);
    if w.len() == 2 && w[0] == '%' {
        assert(w =~= seq!['%', w[1]]);
    }
}

/// Dropping field codes keeps exactly the words that are none of the listed
/// field codes, in order.
pub proof fn lemma_drop_field_codes_listed(ws: Seq<Seq<char>>)
    ensures
        drop_field_codes(ws) == ws.filter(|w: Seq<char>| !is_listed_field_code(w)),
    decreases ws.len(),
{
    reveal(Seq::filter);
    if ws.len() > 0 {
        lemma_drop_field_codes_listed(ws.drop_last());
        lemma_field_code_literals(ws.last());
    }
}

/// The command line of an `Exec=` value is its unquoted words, quoted spaces
/// restored, without the words that are one of the listed field codes.
pub proof fn lemma_exec_arguments_drop_listed_codes(source: Seq<char>)
    ensures
        exec_arguments(source) == words(descape(source)).map_values(
            |w: Seq<char>| unmark_spaces(w),
        ).filter(|w: Seq<char>| !is_listed_field_code(w)),
{
    lemma_drop_field_codes_listed(
        words(descape(source)).map_values(|w: Seq<char>| unmark_spaces(w)),
    );
}

/// No argument of a command line is one of the listed field codes.
pub proof fn lemma_no_listed_field_code_arguments(source: Seq<char>)
    ensures
        forall|k: int|
            0 <= k < exec_arguments(source).len() ==> !is_listed_field_code(
                #[trigger] exec_arguments(source)[k],
            ),
{
    lemma_arguments_are_words(source);
    assert forall|k: int| 0 <= k < exec_arguments(source).len() implies !is_listed_field_code(
        #[trigger] exec_arguments(source)[k],
    ) by {
        lemma_field_code_literals(exec_arguments(source)[k]);
    }
}

/// What `drop_field_codes` keeps are words of its input that are not field codes.
proof fn lemma_drop_field_codes(ws: Seq<Seq<char>>)
    ensures
        forall|k: int|
            0 <= k < drop_field_codes(ws).len() ==> !is_field_code(
                #[trigger] drop_field_codes(ws)[k],
            ) && exists|j: int| 0 <= j < ws.len() && ws[j] == drop_field_codes(ws)[k],
    decreases ws.len(),
{
    if ws.len() > 0 {
        lemma_drop_field_codes(ws.drop_last());
        let rest = drop_field_codes(ws.drop_last());
        assert forall|k: int| 0 <= k < rest.len() implies exists|j: int|
            0 <= j < ws.len() && ws[j] == #[trigger] rest[k] by {
            let j = choose|j: int| 0 <= j < ws.drop_last().len() && ws.drop_last()[j] == rest[k];
            assert(ws[j] == ws.drop_last()[j]);
        }
        if !is_field_code(ws.last()) {
            assert(ws[ws.len() - 1] == rest.push(ws.last())[rest.len() as int]);
        }
    }
}

/// Words are never empty.
proof fn lemma_words_from_nonempty(cur: Seq<char>, s: Seq<char>)
    ensures
        forall|k: int| 0 <= k < words_from(cur, s).len() ==> (#[trigger] words_from(cur, s)[k]).len() > 0,
    decreases s.len(),
{
    if s.len() == 0 {
        if cur.len() > 0 {
            assert(words_from(cur, s) =~= seq![cur]);
            assert(words_from(cur, s)[0] == cur);
        } else {
            assert(words_from(cur, s) =~= Seq::<Seq<char>>::empty());
        }
    } else {
        if is_white_space(s[0]) {
            lemma_words_from_nonempty(Seq::empty(), s.drop_first());
            let rest = words_from(Seq::empty(), s.drop_first());
            if cur.len() > 0 {
                assert(words_from(cur, s) == seq![cur] + rest);
                assert forall|k: int| 0 <= k < words_from(cur, s).len() implies (#[trigger] words_from(
                    cur,
                    s,
                )[k]).len() > 0 by {
                    if k > 0 {
                        assert(words_from(cur, s)[k] == rest[k - 1]);
                    }
                }
            } else {
                assert(words_from(cur, s) =~= rest);
            }
        } else {
            lemma_words_from_nonempty(cur.push(s[0]), s.drop_first());
            assert(words_from(cur, s) == words_from(cur.push(s[0]), s.drop_first()));
        }
    }
}

/// No argument of a command is a field code, and none is empty.
pub proof fn lemma_arguments_are_words(source: Seq<char>)
    ensures
        forall|k: int|
            0 <= k < exec_arguments(source).len() ==> !is_field_code(
                #[trigger] exec_arguments(source)[k],
            ) && exec_arguments(source)[k].len() > 0,
{
    let ws = words(descape(source));
    let unmarked = ws.map_values(|w: Seq<char>| unmark_spaces(w));
    lemma_drop_field_codes(unmarked);
    lemma_words_from_nonempty(Seq::empty(), descape(source));
    assert forall|k: int| 0 <= k < exec_arguments(source).len() implies !is_field_code(
        #[trigger] exec_arguments(source)[k],
    ) && exec_arguments(source)[k].len() > 0 by {
        let j = choose|j: int|
            0 <= j < unmarked.len() && unmarked[j] == drop_field_codes(unmarked)[k];
        assert(ws[j].len() > 0);
        assert(unmarked[j] == unmark_spaces(ws[j]));
    }
}

/// Characters that the command-line pass treats specially: quotes, escapes
/// and characters that are kept only inside quotes.
pub open spec fn is_special(c: char) -> bool {
    c == '"' || c == '\\' || c == '`' || c == '$' || is_quote_only(c)
}

proof fn lemma_descape_plain(out: Seq<char>, s: Seq<char>)
    requires
        forall|i: int| 0 <= i < s.len() ==> !is_special(#[trigger] s[i]),
    ensures
        descape_from(DescapeState { quoted: false, escaped: false, out }, s) == (DescapeState {
            quoted: false,
            escaped: false,
            out: out + s,
        }),
    decreases s.len(),
{
    if s.len() == 0 {
        assert(out + s =~= out);
    } else {
        assert(!is_special(s[0]));
        lemma_descape_plain(out.push(s[0]), s.drop_first());
        assert(out.push(s[0]) + s.drop_first() =~= out + s);
    }
}

proof fn lemma_unmark_no_tilde(w: Seq<char>)
    requires
        forall|i: int| 0 <= i < w.len() ==> #[trigger] w[i] != '~',
    ensures
        unmark_spaces(w) == w,
    decreases w.len(),
{
    if w.len() > 0 {
        if w.len() >= 3 && w.take(3) == space_marker() {
            assert(w.take(3)[0] == w[0]);
        }
        lemma_unmark_no_tilde(w.drop_first());
        assert(seq![w[0]] + w.drop_first() =~= w);
    }
}

proof fn lemma_words_from_no_tilde(cur: Seq<char>, s: Seq<char>)
    requires
        forall|i: int| 0 <= i < cur.len() ==> #[trigger] cur[i] != '~',
        forall|i: int| 0 <= i < s.len() ==> #[trigger] s[i] != '~',
    ensures
        forall|k: int, i: int|
            0 <= k < words_from(cur, s).len() && 0 <= i < words_from(cur, s)[k].len() ==> #[trigger] words_from(
                cur,
                s,
            )[k][i] != '~',
    decreases s.len(),
{
    if s.len() == 0 {
        if cur.len() > 0 {
            assert(words_from(cur, s) =~= seq![cur]);
            assert(words_from(cur, s)[0] == cur);
        } else {
            assert(words_from(cur, s) =~= Seq::<Seq<char>>::empty());
        }
    } else {
        assert(s[0] != '~');
        if is_white_space(s[0]) {
            lemma_words_from_no_tilde(Seq::empty(), s.drop_first());
            let rest = words_from(Seq::empty(), s.drop_first());
            if cur.len() > 0 {
                assert(words_from(cur, s) == seq![cur] + rest);
                assert forall|k: int, i: int|
                    0 <= k < words_from(cur, s).len() && 0 <= i < words_from(cur, s)[k].len()
                    implies #[trigger] words_from(cur, s)[k][i] != '~' by {
                    if k > 0 {
                        assert(words_from(cur, s)[k] == rest[k - 1]);
                        assert(rest[k - 1][i] != '~');
                    } else {
                        assert(words_from(cur, s)[k] == cur);
                        assert(cur[i] != '~');
                    }
                }
            } else {
                assert(words_from(cur, s) =~= rest);
            }
        } else {
            lemma_words_from_no_tilde(cur.push(s[0]), s.drop_first());
            assert(words_from(cur, s) == words_from(cur.push(s[0]), s.drop_first()));
        }
    }
}

/// `t` with each space made the space marker.
pub open spec fn mark_spaces(t: Seq<char>) -> Seq<char>
    decreases t.len(),
{
    if t.len() == 0 {
        Seq::empty()
    } else if t[0] == ' ' {
        space_marker() + mark_spaces(t.drop_first())
    } else {
        seq![t[0]] + mark_spaces(t.drop_first())
    }
}

proof fn lemma_descape_quoted_text(out: Seq<char>, t: Seq<char>)
    requires
        forall|i: int| 0 <= i < t.len() ==> !is_special(#[trigger] t[i]),
    ensures
        descape_from(DescapeState { quoted: true, escaped: false, out }, t + seq!['"']) == (DescapeState {
            quoted: false,
            escaped: false,
            out: out + mark_spaces(t),
        }),
    decreases t.len(),
{
    let s = t + seq!['"'];
    let st = DescapeState { quoted: true, escaped: false, out };
    if t.len() == 0 {
        assert(s[0] == '"');
        assert(s.drop_first() =~= Seq::<char>::empty());
        assert(out + mark_spaces(t) =~= out);
        let st2 = DescapeState { quoted: false, escaped: false, out };
        assert(descape_step(st, '"') == st2);
        assert(descape_from(st2, s.drop_first()) == st2);
        assert(descape_from(st, s) == descape_from(descape_step(st, s[0]), s.drop_first()));
    } else {
        assert(s[0] == t[0]);
        assert(!is_special(t[0]));
        assert(s.drop_first() =~= t.drop_first() + seq!['"']);
        assert(descape_from(st, s) == descape_from(descape_step(st, s[0]), s.drop_first()));
        if t[0] == ' ' {
            assert(descape_step(st, ' ') == DescapeState { quoted: true, escaped: false, out: out + space_marker() });
            lemma_descape_quoted_text(out + space_marker(), t.drop_first());
            assert(out + space_marker() + mark_spaces(t.drop_first()) =~= out + mark_spaces(t));
        } else {
            assert(descape_step(st, t[0]) == DescapeState { quoted: true, escaped: false, out: out.push(t[0]) });
            lemma_descape_quoted_text(out.push(t[0]), t.drop_first());
            assert(out.push(t[0]) + mark_spaces(t.drop_first()) =~= out + mark_spaces(t));
        }
    }
}

proof fn lemma_mark_spaces_shape(t: Seq<char>)
    requires
        forall|i: int|
            0 <= i < t.len() ==> !is_special(#[trigger] t[i]) && (is_white_space(t[i]) ==> t[i]
                == ' '),
    ensures
        unmark_spaces(mark_spaces(t)) == t,
        forall|i: int| 0 <= i < mark_spaces(t).len() ==> !is_white_space(#[trigger] mark_spaces(t)[i]),
        t.len() > 0 ==> mark_spaces(t).len() > 0,
    decreases t.len(),
{
    if t.len() > 0 {
        let rest = mark_spaces(t.drop_first());
        assert(!is_special(t[0]));
        assert forall|i: int| 0 <= i < t.drop_first().len() implies !is_special(
            #[trigger] t.drop_first()[i],
        ) && (is_white_space(t.drop_first()[i]) ==> t.drop_first()[i] == ' ') by {
            assert(t.drop_first()[i] == t[i + 1]);
        }
        lemma_mark_spaces_shape(t.drop_first());
        if t[0] == ' ' {
            let m = space_marker() + rest;
            assert(m.take(3) =~= space_marker());
            assert(m.skip(3) =~= rest);
            assert(seq![' '] + t.drop_first() =~= t);
            assert forall|i: int| 0 <= i < m.len() implies !is_white_space(#[trigger] m[i]) by {
                if i >= 3 {
                    assert(m[i] == rest[i - 3]);
                }
            }
        } else {
            let m = seq![t[0]] + rest;
            assert(t[0] != '~');
            if m.len() >= 3 && m.take(3) == space_marker() {
                assert(m.take(3)[0] == m[0]);
            }
            assert(m.drop_first() =~= rest);
            assert(seq![t[0]] + t.drop_first() =~= t);
            assert forall|i: int| 0 <= i < m.len() implies !is_white_space(#[trigger] m[i]) by {
                if i >= 1 {
                    assert(m[i] == rest[i - 1]);
                }
            }
        }
    }
}

/// Text between double quotes is one argument, its spaces kept: a quoted
/// text without quotes, escapes, reserved characters or white space other
/// than spaces, that is not a field code, is the whole command line.
pub proof fn lemma_quoted_argument(t: Seq<char>)
    requires
        t.len() > 0,
        forall|i: int|
            0 <= i < t.len() ==> !is_special(#[trigger] t[i]) && (is_white_space(t[i]) ==> t[i]
                == ' '),
        !is_listed_field_code(t),
    ensures
        exec_arguments(seq!['"'] + t + seq!['"']) == seq![t],
{
    let source = seq!['"'] + t + seq!['"'];
    let init = DescapeState { quoted: false, escaped: false, out: Seq::empty() };
    assert(source[0] == '"');
    assert(source.drop_first() =~= t + seq!['"']);
    assert(descape_step(init, '"') == DescapeState { quoted: true, escaped: false, out: Seq::<char>::empty() });
    assert forall|i: int| 0 <= i < t.len() implies !is_special(#[trigger] t[i]) by {}
    lemma_descape_quoted_text(Seq::empty(), t);
    assert(Seq::<char>::empty() + mark_spaces(t) =~= mark_spaces(t));
    assert(descape(source) == mark_spaces(t));
    lemma_mark_spaces_shape(t);
    lemma_words_shape(mark_spaces(t));
    assert(words(mark_spaces(t)) == seq![mark_spaces(t)]);
    let ws = words(descape(source)).map_values(|w: Seq<char>| unmark_spaces(w));
    assert(ws =~= seq![t]);
    lemma_drop_field_codes_listed(ws);
    reveal(Seq::filter);
    assert(seq![t].drop_last() =~= Seq::<Seq<char>>::empty());
    assert(Seq::<Seq<char>>::empty().filter(|w: Seq<char>| !is_listed_field_code(w)) =~= Seq::<Seq<char>>::empty());
    assert(Seq::<Seq<char>>::empty().push(t) =~= seq![t]);
}

/// A command line without quotes, escapes or characters reserved to quoted
/// text is split at white space, and its field codes are dropped.
pub proof fn lemma_plain_command(source: Seq<char>)
    requires
        forall|i: int| 0 <= i < source.len() ==> !is_special(#[trigger] source[i]),
    ensures
        exec_arguments(source) == drop_field_codes(words(source)),
{
    lemma_descape_plain(Seq::empty(), source);
    assert(Seq::<char>::empty() + source =~= source);
    assert forall|i: int| 0 <= i < source.len() implies #[trigger] source[i] != '~' by {
        assert(!is_special(source[i]));
    }
    lemma_words_from_no_tilde(Seq::empty(), source);
    let ws = words(source);
    assert(ws.map_values(|w: Seq<char>| unmark_spaces(w)) =~= ws) by {
        assert forall|k: int| 0 <= k < ws.len() implies unmark_spaces(ws[k]) == ws[k] by {
            assert forall|i: int| 0 <= i < ws[k].len() implies #[trigger] ws[k][i] != '~' by {
                assert(words_from(Seq::empty(), source)[k][i] != '~');
            }
            lemma_unmark_no_tilde(ws[k]);
        }
    }
}

} // verus!
