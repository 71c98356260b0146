//! Runtime configuration read from a config file.
//!
//! The config file is organized into categories and parameters:
//!
//! - A category is a name in brackets on its own line, e.g. `[processmonitor]`.
//! - A parameter is a `key value` pair (separated by white space) belonging to
//!   the most recently declared category, e.g. `directory /tmp`.
//! - `#` starts a comment; blank lines are ignored.
//!
//! An execve whose binary path starts with any monitored `directory` raises a
//! detection.
use crate::text::{
    all_white_space, ends_line, lemma_content_ignores_cr, lemma_content_ignores_edge_white_space,
    lemma_lines_of_concat, lemma_lines_of_one_line, no_newline, strip_cr, trim_start,
    chars_of, is_prefix_is_a_leading_segment, lemma_position_unique, lemma_trim_of_trimmed, lemma_no_white_space_position,
    lemma_white_space_position, lemma_trim_surrounded, is_white_space, lemma_position_of, position_of, copy_range, find_white_space, is_prefix, lines_of, split_lines, starts_with_chars,
    string_of, strip_comment, strip_comment_chars, trim, trim_chars, white_space_position,
};
use vstd::prelude::*;

verus! {

/// Environment variable that overrides the default config path.
pub const CONFIG_ENV: &'static str = "NEEDRE_CONFIG";

/// Default location of the config file.
pub const DEFAULT_CONFIG_PATH: &'static str = "/etc/needre/needre.conf";

/// Fallback monitored directory used when no directories are configured.
pub const DEFAULT_MONITOR_DIR: &'static str = "/tmp";

/// Category holding the process-execution monitoring settings.
pub const SECTION_PROCESS_MONITOR: &'static str = "processmonitor";

/// Parameter naming a directory prefix to monitor.
pub const KEY_DIRECTORY: &'static str = "directory";

/// A parameter as `(key, value)` characters.
pub type ParamView = (Seq<char>, Seq<char>);

/// Categories in order of first appearance, each with its parameters in
/// file order.
pub type SectionList = Seq<(Seq<char>, Seq<ParamView>)>;

/// What the parser knows after some lines: the categories so far and the
/// category that parameters currently go to.
pub type ParseState = (SectionList, Option<Seq<char>>);

/// Index of the first category called `name`, or `secs.len()`.
pub open spec fn section_position(secs: SectionList, name: Seq<char>) -> int
    decreases secs.len(),
{
    if secs.len() == 0 {
        0
    } else if secs[0].0 == name {
        0
    } else {
        1 + section_position(secs.drop_first(), name)
    }
}

/// `section_position` is the first category with that name, or the length.
pub proof fn lemma_section_position(secs: SectionList, name: Seq<char>)
    ensures
        0 <= section_position(secs, name) <= secs.len(),
        section_position(secs, name) < secs.len() ==> secs[section_position(secs, name)].0
            == name,
        forall|j: int| 0 <= j < section_position(secs, name) ==> secs[j].0 != name,
    decreases secs.len(),
{
    if secs.len() > 0 && secs[0].0 != name {
        lemma_section_position(secs.drop_first(), name);
        assert forall|j: int| 0 <= j < section_position(secs, name) implies secs[j].0
            != name by {
            if j > 0 {
                assert(secs[j] == secs.drop_first()[j - 1]);
            }
        }
    }
}

/// A category header: `[` ... `]` on a trimmed line.
pub open spec fn is_header(line: Seq<char>) -> bool {
    line.len() >= 2 && line[0] == '[' && line.last() == ']'
}

/// The trimmed name between the brackets of a header.
pub open spec fn header_name(line: Seq<char>) -> Seq<char> {
    trim(line.subrange(1, line.len() - 1))
}

/// A parameter line split at its first white space into a trimmed key and a
/// trimmed value; without white space the whole line is the key and the
/// value is empty.
pub open spec fn split_param(line: Seq<char>) -> ParamView {
    let i = white_space_position(line);
    if i < line.len() {
        (trim(line.take(i)), trim(line.skip(i + 1)))
    } else {
        (line, Seq::empty())
    }
}

/// `secs` with a category `name`, added at the end when it is new.
pub open spec fn open_section(secs: SectionList, name: Seq<char>) -> SectionList {
    if section_position(secs, name) < secs.len() {
        secs
    } else {
        secs.push((name, Seq::empty()))
    }
}

/// `secs` with `p` appended to the parameters of the category `name`.
pub open spec fn append_param(secs: SectionList, name: Seq<char>, p: ParamView) -> SectionList {
    let i = section_position(secs, name);
    if i < secs.len() {
        secs.update(i, (secs[i].0, secs[i].1.push(p)))
    } else {
        secs
    }
}

/// The effect of one raw line on the parser state.
pub open spec fn parse_line(st: ParseState, raw: Seq<char>) -> ParseState {
    let line = trim(strip_comment(raw));
    if line.len() == 0 {
        st
    } else if is_header(line) {
        let name = header_name(line);
        (open_section(st.0, name), Some(name))
    } else {
        match st.1 {
            Some(sec) => (append_param(st.0, sec, split_param(line)), st.1),
            None => st,
        }
    }
}

/// The state after reading `lines`, in order, from `st`.
pub open spec fn parse_from(st: ParseState, lines: Seq<Seq<char>>) -> ParseState
    decreases lines.len(),
{
    if lines.len() == 0 {
        st
    } else {
        parse_line(parse_from(st, lines.drop_last()), lines.last())
    }
}

/// No category, and no current category.
pub open spec fn initial_state() -> ParseState {
    (Seq::empty(), None)
}

/// The categories that `lines` declare.
pub open spec fn parse_lines(lines: Seq<Seq<char>>) -> SectionList {
    parse_from(initial_state(), lines).0
}

/// The categories of a config text.
pub open spec fn parse_text(text: Seq<char>) -> SectionList {
    parse_lines(lines_of(text))
}

/// A parsed config file: categories and their `(key, value)` parameters.
/// Parameters are kept in file order and a key may repeat (e.g. multiple
/// `directory` entries).
pub struct Sections {
    pub entries: Vec<(String, Vec<(String, String)>)>,
}

impl View for Sections {
    type V = SectionList;

    open spec fn view(&self) -> SectionList {
        self.entries.deep_view()
    }
}

/// Index of the first entry called `name`.
fn find_section(entries: &Vec<(String, Vec<(String, String)>)>, name: &String) -> (i: usize)
    ensures
        i == section_position(entries.deep_view(), name@),
{
    let mut i: usize = 0;
    while i < entries.len() && !(entries[i].0 == *name)
        invariant
            i <= entries.len(),
            forall|j: int| 0 <= j < i ==> entries.deep_view()[j].0 != name@,
        decreases entries.len() - i,
    {
        i = i + 1;
    }
    proof {
        let secs = entries.deep_view();
        lemma_section_position(secs, name@);
        let p = section_position(secs, name@);
        if i < entries.len() {
            assert(secs[i as int].0 == entries@[i as int].0@);
        }
        if p < i {
            assert(secs[p].0 != name@);
        }
    }
    i
}

impl Sections {
    /// The parameters of category `name`, if the text declared it.
    pub fn get(&self, name: &str) -> (r: Option<&Vec<(String, String)>>)
        ensures
            ({
                let i = section_position(self@, name@);
                match r {
                    Some(params) => i < self@.len() && params.deep_view() == self@[i].1,
                    None => i >= self@.len(),
                }
            }),
    {
        let key = name.to_owned();
        let i = find_section(&self.entries, &key);
        if i < self.entries.len() {
            Some(&self.entries[i].1)
        } else {
            None
        }
    }
}

/// The exec state `(entries, current)` stands for the parser state `st`.
spec fn represents(secs: SectionList, current: Option<usize>, st: ParseState) -> bool {
    &&& secs == st.0
    &&& match current {
        None => st.1 is None,
        Some(i) => {
            &&& i < secs.len()
            &&& st.1 == Some(secs[i as int].0)
            &&& section_position(secs, secs[i as int].0) == i
        },
    }
}

fn split_param_chars(line: &Vec<char>) -> (r: (Vec<char>, Vec<char>))
    ensures
        (r.0@, r.1@) == split_param(line@),
{
    let i = find_white_space(line);
    if i < line.len() {
        let k = copy_range(line, 0, i);
        let v = copy_range(line, i + 1, line.len());
        assert(k@ =~= line@.take(i as int));
        assert(v@ =~= line@.skip(i + 1));
        (trim_chars(&k), trim_chars(&v))
    } else {
        (copy_range(line, 0, line.len()), Vec::new())
    }
}

/// Applies one raw line to the exec parser state.
fn apply_line(
    entries: &mut Vec<(String, Vec<(String, String)>)>,
    current: &mut Option<usize>,
    raw: &Vec<char>,
    Ghost(st): Ghost<ParseState>,
)
    requires
        represents(old(entries).deep_view(), *old(current), st),
    ensures
        represents(final(entries).deep_view(), *final(current), parse_line(st, raw@)),
{
    let stripped = strip_comment_chars(raw);
    let line = trim_chars(&stripped);
    if line.len() == 0 {
        return ;
    }
    let ghost secs = entries.deep_view();
    if line.len() >= 2 && line[0] == '[' && line[line.len() - 1] == ']' {
        let inner = copy_range(&line, 1, line.len() - 1);
        let name_chars = trim_chars(&inner);
        let name = string_of(&name_chars);
        let pos = find_section(entries, &name);
        proof {
            lemma_section_position(secs, name@);
        }
        if pos == entries.len() {
            let ghost params: Seq<(Seq<char>, Seq<char>)> = Seq::empty();
            let fresh: Vec<(String, String)> = Vec::new();
            assert(fresh.deep_view() =~= params);
            entries.push((name, fresh));
            assert(entries.deep_view() =~= secs.push((name@, params)));
            proof {
                let new_secs = entries.deep_view();
                lemma_section_position(new_secs, name@);
                let p = section_position(new_secs, name@);
                if p < pos {
                    assert(new_secs[p] == secs[p]);
                }
            }
        }
        *current = Some(pos);
    } else {
        match *current {
            Some(i) => {
                let (k, v) = split_param_chars(&line);
                let key = string_of(&k);
                let value = string_of(&v);
                let ghost p: ParamView = (key@, value@);
                let ghost old_entries = entries@;
                let ghost pair = (key, value);
                assert(pair.deep_view() == p);
                entries[i].1.push((key, value));
                proof {
                    let new_secs = entries.deep_view();
                    assert(entries@[i as int].1@ == old_entries[i as int].1@.push(pair));
                    assert(entries@[i as int].1.deep_view() =~= old_entries[i as int].1.deep_view().push(p));
                    assert(entries@[i as int].0 == old_entries[i as int].0);
                    assert forall|j: int| 0 <= j < secs.len() && j != i implies new_secs[j] == secs[j] by {
                        assert(entries@[j] == old_entries[j]);
                    }
                    assert(new_secs =~= secs.update(i as int, (secs[i as int].0, secs[i as int].1.push(p))));
                    let name = secs[i as int].0;
                    lemma_section_position(secs, name);
                    lemma_section_position(new_secs, name);
                    let q = section_position(new_secs, name);
                    if q < i {
                        assert(new_secs[q].0 == secs[q].0);
                    }
                }
            },
            None => {},
        }
    }
}

/// Parse config text into categorized `(key, value)` parameters.
///
/// `[name]` opens a category; subsequent `key value` lines belong to it.
/// Parameters that appear before any category are skipped.
pub fn parse(text: &str) -> (sections: Sections)
    ensures
        sections@ == parse_text(text@),
{
    let chars = chars_of(text);
    let lines = split_lines(&chars);
    let mut entries: Vec<(String, Vec<(String, String)>)> = Vec::new();
    let mut current: Option<usize> = None;
    let mut k: usize = 0;
    assert(entries.deep_view() =~= initial_state().0);
    assert(lines.deep_view().take(0) =~= Seq::<Seq<char>>::empty());
    while k < lines.len()
        invariant
            k <= lines.len(),
            lines.deep_view() == lines_of(text@),
            represents(
                entries.deep_view(),
                current,
                parse_from(initial_state(), lines.deep_view().take(k as int)),
            ),
        decreases lines.len() - k,
    {
        let ghost st = parse_from(initial_state(), lines.deep_view().take(k as int));
        apply_line(&mut entries, &mut current, &lines[k], Ghost(st));
        k = k + 1;
        proof {
            let taken = lines.deep_view().take(k as int);
            assert(taken.drop_last() =~= lines.deep_view().take(k - 1));
            assert(taken.last() == lines[k - 1]@);
        }
    }
    assert(lines.deep_view().take(k as int) =~= lines.deep_view());
    Sections { entries }
}

/// The values of the non-empty `directory` parameters, in order.
pub open spec fn directory_values(params: Seq<ParamView>) -> Seq<Seq<char>>
    decreases params.len(),
{
    if params.len() == 0 {
        Seq::empty()
    } else {
        let rest = directory_values(params.drop_last());
        let p = params.last();
        if p.0 == KEY_DIRECTORY@ && p.1.len() > 0 {
            rest.push(p.1)
        } else {
            rest
        }
    }
}

/// The directories that the `processmonitor` category lists.
pub open spec fn monitored_dirs(secs: SectionList) -> Seq<Seq<char>> {
    let i = section_position(secs, SECTION_PROCESS_MONITOR@);
    if i < secs.len() {
        directory_values(secs[i].1)
    } else {
        Seq::empty()
    }
}

/// Index of the first of `dirs` that is a prefix of `path`, or `dirs.len()`.
pub open spec fn first_prefix_index(dirs: Seq<Seq<char>>, path: Seq<char>) -> int
    decreases dirs.len(),
{
    if dirs.len() == 0 {
        0
    } else if is_prefix(dirs[0], path) {
        0
    } else {
        1 + first_prefix_index(dirs.drop_first(), path)
    }
}

/// `first_prefix_index` is the first matching directory, or the length.
pub proof fn lemma_first_prefix_index(dirs: Seq<Seq<char>>, path: Seq<char>)
    ensures
        0 <= first_prefix_index(dirs, path) <= dirs.len(),
        first_prefix_index(dirs, path) < dirs.len() ==> is_prefix(
            dirs[first_prefix_index(dirs, path)],
            path,
        ),
        forall|j: int| 0 <= j < first_prefix_index(dirs, path) ==> !is_prefix(dirs[j], path),
    decreases dirs.len(),
{
    if dirs.len() > 0 && !is_prefix(dirs[0], path) {
        lemma_first_prefix_index(dirs.drop_first(), path);
        assert forall|j: int| 0 <= j < first_prefix_index(dirs, path) implies !is_prefix(
            dirs[j],
            path,
        ) by {
            if j > 0 {
                assert(dirs[j] == dirs.drop_first()[j - 1]);
            }
        }
    }
}

/// Reading `a` and then `b` is reading `a + b`.
pub proof fn lemma_parse_from_concat(st: ParseState, a: Seq<Seq<char>>, b: Seq<Seq<char>>)
    ensures
        parse_from(st, a + b) == parse_from(parse_from(st, a), b),
    decreases b.len(),
{
    if b.len() == 0 {
        assert(a + b =~= a);
    } else {
        lemma_parse_from_concat(st, a, b.drop_last());
        assert((a + b).drop_last() =~= a + b.drop_last());
        assert((a + b).last() == b.last());
    }
}

/// Cutting a line at its first `#` twice is cutting it once.
pub proof fn lemma_strip_comment_idempotent(line: Seq<char>)
    ensures
        strip_comment(strip_comment(line)) == strip_comment(line),
{
    let y = strip_comment(line);
    lemma_position_of(line, '#');
    lemma_position_of(y, '#');
    let p = position_of(line, '#');
    let q = position_of(y, '#');
    if q < p {
        assert(y[q] == line[q]);
    }
    assert(y.take(q) =~= y);
}

/// `#` starts a comment: whatever follows the first `#` of each line has no
/// effect on what the lines declare.
pub proof fn comments_are_ignored(st: ParseState, lines: Seq<Seq<char>>)
    ensures
        parse_from(st, lines) == parse_from(st, lines.map_values(|l: Seq<char>| strip_comment(l))),
    decreases lines.len(),
{
    let cut = lines.map_values(|l: Seq<char>| strip_comment(l));
    if lines.len() > 0 {
        comments_are_ignored(st, lines.drop_last());
        assert(cut.drop_last() =~= lines.drop_last().map_values(|l: Seq<char>| strip_comment(l)));
        lemma_strip_comment_idempotent(lines.last());
    }
}

/// Blank lines are ignored: a line that holds only white space and comment
/// can be removed without changing what the lines declare.
pub proof fn blank_lines_are_ignored(
    st: ParseState,
    a: Seq<Seq<char>>,
    blank: Seq<char>,
    b: Seq<Seq<char>>,
)
    requires
        trim(strip_comment(blank)).len() == 0,
    ensures
        parse_from(st, a.push(blank) + b) == parse_from(st, a + b),
{
    lemma_parse_from_concat(st, a.push(blank), b);
    lemma_parse_from_concat(st, a, b);
    assert(a.push(blank).drop_last() =~= a);
}

/// Lines before the first category header leave the parser where it
/// started.
pub proof fn lemma_headerless_lines_change_nothing(lines: Seq<Seq<char>>)
    requires
        forall|i: int| 0 <= i < lines.len() ==> !is_header(trim(strip_comment(#[trigger] lines[i]))),
    ensures
        parse_from(initial_state(), lines) == initial_state(),
    decreases lines.len(),
{
    if lines.len() > 0 {
        lemma_headerless_lines_change_nothing(lines.drop_last());
        assert(!is_header(trim(strip_comment(lines[lines.len() - 1]))));
    }
}

/// Parameters that appear before any category are skipped: lines without a
/// category header, placed before the rest of a file, change nothing.
pub proof fn parameters_before_a_category_are_skipped(a: Seq<Seq<char>>, b: Seq<Seq<char>>)
    requires
        forall|i: int| 0 <= i < a.len() ==> !is_header(trim(strip_comment(#[trigger] a[i]))),
    ensures
        parse_lines(a + b) == parse_lines(b),
{
    lemma_headerless_lines_change_nothing(a);
    lemma_parse_from_concat(initial_state(), a, b);
}

/// A header for a category that was declared before makes it current again
/// and keeps the parameters it has.
pub proof fn reopening_a_category_keeps_its_parameters(st: ParseState, raw: Seq<char>)
    requires
        is_header(trim(strip_comment(raw))),
        section_position(st.0, header_name(trim(strip_comment(raw)))) < st.0.len(),
    ensures
        parse_line(st, raw) == (st.0, Some(header_name(trim(strip_comment(raw))))),
{
}

/// A parameter line adds its `(key, value)` at the end of the parameters of
/// the most recently declared category and changes no other category.
pub proof fn parameters_join_the_current_category(st: ParseState, raw: Seq<char>, name: Seq<char>)
    requires
        st.1 == Some(name),
        section_position(st.0, name) < st.0.len(),
        trim(strip_comment(raw)).len() > 0,
        !is_header(trim(strip_comment(raw))),
    ensures
        ({
            let i = section_position(st.0, name);
            let after = parse_line(st, raw);
            &&& after.1 == st.1
            &&& after.0.len() == st.0.len()
            &&& after.0[i] == (st.0[i].0, st.0[i].1.push(split_param(trim(strip_comment(raw)))))
            &&& forall|j: int| 0 <= j < st.0.len() && j != i ==> after.0[j] == st.0[j]
        }),
{
    lemma_section_position(st.0, name);
}

/// Lines with the same content (the part before `#`, trimmed) have the same
/// effect on the parser.
pub proof fn lines_with_the_same_content_parse_alike(st: ParseState, r1: Seq<char>, r2: Seq<char>)
    requires
        trim(strip_comment(r1)) == trim(strip_comment(r2)),
    ensures
        parse_line(st, r1) == parse_line(st, r2),
{
}

/// The parser state after a whole text.
pub open spec fn text_state(text: Seq<char>) -> ParseState {
    parse_from(initial_state(), lines_of(text))
}

/// What follows a line break at the start of `rest`, or nothing.
pub open spec fn after_line_break(rest: Seq<char>) -> Seq<char> {
    if rest.len() == 0 {
        rest
    } else {
        rest.skip(1)
    }
}

/// A text cut at one of its lines: the lines before, that line, then the
/// lines after its line break.
proof fn lemma_text_state_at_line(a: Seq<char>, l: Seq<char>, rest: Seq<char>)
    requires
        ends_line(a),
        no_newline(l),
        rest.len() == 0 || rest[0] == '\n',
    ensures
        text_state(a + l + rest) == parse_from(
            parse_line(text_state(a), l),
            lines_of(after_line_break(rest)),
        ),
{
    let st = text_state(a);
    assert(a + l + rest =~= a + (l + rest));
    lemma_lines_of_concat(a, l + rest);
    lemma_parse_from_concat(initial_state(), lines_of(a), lines_of(l + rest));
    assert(text_state(a + l + rest) == parse_from(st, lines_of(l + rest)));
    lemma_content_ignores_cr(l);
    lines_with_the_same_content_parse_alike(st, strip_cr(l), l);
    let no_lines = Seq::<Seq<char>>::empty();
    assert(lines_of(Seq::<char>::empty()) =~= no_lines);
    if rest.len() == 0 {
        assert(l + rest =~= l);
        lemma_lines_of_one_line(l, rest);
        assert(parse_from(parse_line(st, l), no_lines) == parse_line(st, l));
        if l.len() == 0 {
            assert(strip_comment(l) =~= Seq::<char>::empty());
            assert(trim(strip_comment(l)) =~= Seq::<char>::empty());
            assert(parse_from(st, no_lines) == st);
        } else {
            assert(seq![l].drop_last() =~= no_lines);
            assert(parse_from(st, seq![l]) == parse_line(parse_from(st, no_lines), l));
        }
    } else {
        let b = rest.skip(1);
        assert(l + rest =~= l + seq!['\n'] + b);
        lemma_lines_of_one_line(l, b);
        lemma_parse_from_concat(st, seq![strip_cr(l)], lines_of(b));
        assert(seq![strip_cr(l)].drop_last() =~= no_lines);
        assert(parse_from(st, seq![strip_cr(l)]) == parse_line(parse_from(st, no_lines), strip_cr(l)));
    }
}

/// Replacing a line of a text by one with the same content (the part before
/// `#`, trimmed) changes nothing that the text declares. `a` is the text
/// before the line, `rest` what follows it (nothing, or a line break and
/// more).
pub proof fn texts_with_lines_of_the_same_content_parse_alike(
    a: Seq<char>,
    l1: Seq<char>,
    l2: Seq<char>,
    rest: Seq<char>,
)
    requires
        ends_line(a),
        no_newline(l1),
        no_newline(l2),
        rest.len() == 0 || rest[0] == '\n',
        trim(strip_comment(l1)) == trim(strip_comment(l2)),
    ensures
        text_state(a + l1 + rest) == text_state(a + l2 + rest),
        parse_text(a + l1 + rest) == parse_text(a + l2 + rest),
{
    lemma_text_state_at_line(a, l1, rest);
    lemma_text_state_at_line(a, l2, rest);
}

/// `#` starts a comment: deleting the part of a line from its first `#` to
/// its end changes nothing that the text declares.
pub proof fn comment_tails_are_ignored_in_texts(a: Seq<char>, l: Seq<char>, rest: Seq<char>)
    requires
        ends_line(a),
        no_newline(l),
        rest.len() == 0 || rest[0] == '\n',
    ensures
        parse_text(a + l + rest) == parse_text(a + strip_comment(l) + rest),
{
    lemma_strip_comment_idempotent(l);
    lemma_position_of(l, '#');
    texts_with_lines_of_the_same_content_parse_alike(a, l, strip_comment(l), rest);
}

/// White space added at the start or the end of a line (or removed from
/// it) changes nothing that the text declares.
pub proof fn line_edge_white_space_is_ignored_in_texts(
    a: Seq<char>,
    w1: Seq<char>,
    l: Seq<char>,
    w2: Seq<char>,
    rest: Seq<char>,
)
    requires
        ends_line(a),
        no_newline(l),
        all_white_space(w1),
        no_newline(w1),
        all_white_space(w2),
        no_newline(w2),
        rest.len() == 0 || rest[0] == '\n',
    ensures
        parse_text(a + w1 + l + w2 + rest) == parse_text(a + l + rest),
{
    let padded = w1 + l + w2;
    assert(a + w1 + l + w2 + rest =~= a + padded + rest);
    assert forall|i: int| 0 <= i < padded.len() implies padded[i] != '\n' by {
        if i < w1.len() {
            assert(padded[i] == w1[i]);
        } else if i < w1.len() + l.len() {
            assert(padded[i] == l[i - w1.len()]);
        } else {
            assert(padded[i] == w2[i - w1.len() - l.len()]);
        }
    }
    lemma_content_ignores_edge_white_space(w1, l, w2);
    texts_with_lines_of_the_same_content_parse_alike(a, padded, l, rest);
}

/// Lines that are blank once comments are removed can be inserted into a
/// text, or deleted from it, without changing what it declares.
pub proof fn blank_lines_are_ignored_in_texts(a: Seq<char>, blank: Seq<char>, b: Seq<char>)
    requires
        ends_line(a),
        no_newline(blank),
        trim(strip_comment(blank)).len() == 0,
    ensures
        parse_text(a + blank + seq!['\n'] + b) == parse_text(a + b),
        parse_text(a + blank) == parse_text(a),
{
    let nl = seq!['\n'] + b;
    assert(nl[0] == '\n');
    assert(nl.skip(1) =~= b);
    lemma_text_state_at_line(a, blank, nl);
    assert(a + blank + seq!['\n'] + b =~= a + blank + nl);
    lemma_lines_of_concat(a, b);
    lemma_parse_from_concat(initial_state(), lines_of(a), lines_of(b));
    let empty = Seq::<char>::empty();
    lemma_text_state_at_line(a, blank, empty);
    assert(a + blank + empty =~= a + blank);
    assert(lines_of(empty) =~= Seq::<Seq<char>>::empty());
}

/// A parameter is split at its first white space, whichever white-space
/// character it is (a space, a tab, ...): the key is everything before it
/// and the value is the rest, trimmed.
pub proof fn parameters_split_at_the_first_white_space(k: Seq<char>, w: char, v: Seq<char>)
    requires
        k.len() > 0,
        forall|i: int| 0 <= i < k.len() ==> !is_white_space(#[trigger] k[i]),
        is_white_space(w),
    ensures
        split_param(k + seq![w] + v) == (k, trim(v)),
{
    let line = k + seq![w] + v;
    lemma_white_space_position(line);
    let p = white_space_position(line);
    assert(line[k.len() as int] == w);
    if p < k.len() {
        assert(line[p] == k[p]);
    }
    if k.len() < p {
        assert(!is_white_space(line[k.len() as int]));
    }
    assert(line.take(k.len() as int) =~= k);
    assert(line.skip(k.len() as int + 1) =~= v);
    lemma_trim_of_trimmed(k);
}

/// A line `key<white space>value` in a category adds `(key, value)` at the
/// end of that category's parameters: the key is the whole run before the
/// first white space, the value the rest with its edges trimmed.
pub proof fn parameter_lines_add_their_key_and_value(
    st: ParseState,
    name: Seq<char>,
    k: Seq<char>,
    w: char,
    v: Seq<char>,
)
    requires
        st.1 == Some(name),
        section_position(st.0, name) < st.0.len(),
        k.len() > 0,
        k[0] != '[',
        forall|i: int| 0 <= i < k.len() ==> !is_white_space(#[trigger] k[i]) && k[i] != '#',
        is_white_space(w),
        forall|i: int| 0 <= i < v.len() ==> #[trigger] v[i] != '#',
        v.len() == 0 || (!is_white_space(v[0]) && !is_white_space(v.last())),
    ensures
        ({
            let i = section_position(st.0, name);
            let after = parse_line(st, k + seq![w] + v);
            &&& after.1 == st.1
            &&& after.0.len() == st.0.len()
            &&& after.0[i] == (name, st.0[i].1.push((k, v)))
            &&& forall|j: int| 0 <= j < st.0.len() && j != i ==> after.0[j] == st.0[j]
        }),
{
    let line = k + seq![w] + v;
    lemma_section_position(st.0, name);
    assert forall|j: int| 0 <= j < line.len() implies line[j] != '#' by {
        if j < k.len() {
            assert(line[j] == k[j]);
        } else if j > k.len() {
            assert(line[j] == v[j - k.len() - 1]);
        }
    }
    lemma_position_unique(line, '#', line.len() as int);
    assert(strip_comment(line) =~= line);
    lemma_trim_of_trimmed(v);
    if v.len() == 0 {
        let empty = Seq::<char>::empty();
        assert(empty + k + seq![w] =~= line);
        lemma_trim_surrounded(empty, k, seq![w]);
        assert(empty + k + empty =~= k);
        lemma_trim_surrounded(empty, k, empty);
        lemma_trim_of_trimmed(k);
        lemma_no_white_space_position(k);
        assert(trim(line) == k);
        assert(split_param(k) == (k, v));
    } else {
        assert(line[0] == k[0]);
        assert(line.last() == v.last());
        lemma_trim_of_trimmed(line);
        parameters_split_at_the_first_white_space(k, w, v);
    }
}

/// Each category occurs once, and the current one is among them.
pub open spec fn well_formed_state(st: ParseState) -> bool {
    &&& forall|i: int, j: int| 0 <= i < j < st.0.len() ==> st.0[i].0 != st.0[j].0
    &&& st.1 matches Some(n) ==> section_position(st.0, n) < st.0.len()
}

/// One line keeps the parser state well formed.
pub proof fn lemma_parse_line_well_formed(st: ParseState, raw: Seq<char>)
    requires
        well_formed_state(st),
    ensures
        well_formed_state(parse_line(st, raw)),
{
    let line = trim(strip_comment(raw));
    let after = parse_line(st, raw);
    if line.len() > 0 {
        if is_header(line) {
            let name = header_name(line);
            lemma_section_position(st.0, name);
            lemma_section_position(after.0, name);
            if section_position(st.0, name) == st.0.len() {
                assert(after.0[st.0.len() as int].0 == name);
                assert forall|a: int, b: int| 0 <= a < b < after.0.len() implies after.0[a].0
                    != after.0[b].0 by {
                    assert(after.0[a] == st.0[a]);
                    if b < st.0.len() {
                        assert(after.0[b] == st.0[b]);
                    }
                }
            }
        } else if let Some(sec) = st.1 {
            let i = section_position(st.0, sec);
            lemma_section_position(st.0, sec);
            lemma_section_position(after.0, sec);
            let q = section_position(after.0, sec);
            if q < i {
                assert(after.0[q] == st.0[q]);
            }
            assert(after.0[i].0 == sec);
            assert forall|a: int, b: int| 0 <= a < b < after.0.len() implies after.0[a].0
                != after.0[b].0 by {
                assert(after.0[a].0 == st.0[a].0);
                assert(after.0[b].0 == st.0[b].0);
            }
        }
    }
}

/// Reading lines keeps the parser state well formed.
pub proof fn lemma_parse_from_well_formed(st: ParseState, lines: Seq<Seq<char>>)
    requires
        well_formed_state(st),
    ensures
        well_formed_state(parse_from(st, lines)),
    decreases lines.len(),
{
    if lines.len() > 0 {
        lemma_parse_from_well_formed(st, lines.drop_last());
        lemma_parse_line_well_formed(parse_from(st, lines.drop_last()), lines.last());
    }
}

/// A category declared several times is one category: the parsed
/// categories have distinct names.
pub proof fn categories_are_unique(text: Seq<char>)
    ensures
        forall|i: int, j: int|
            0 <= i < j < parse_text(text).len() ==> parse_text(text)[i].0 != parse_text(text)[j].0,
{
    lemma_parse_from_well_formed(initial_state(), lines_of(text));
}

/// Every monitored directory is non-empty: empty `directory` values are
/// dropped.
pub proof fn monitored_dirs_are_non_empty(secs: SectionList)
    ensures
        forall|i: int| 0 <= i < monitored_dirs(secs).len() ==> #[trigger] monitored_dirs(secs)[i].len() > 0,
{
    let p = section_position(secs, SECTION_PROCESS_MONITOR@);
    if p < secs.len() {
        lemma_directory_values_non_empty(secs[p].1);
    }
}

/// Values collected from `directory` parameters are non-empty.
pub proof fn lemma_directory_values_non_empty(params: Seq<ParamView>)
    ensures
        forall|i: int| 0 <= i < directory_values(params).len() ==> #[trigger] directory_values(params)[i].len() > 0,
    decreases params.len(),
{
    if params.len() > 0 {
        lemma_directory_values_non_empty(params.drop_last());
        let rest = directory_values(params.drop_last());
        assert forall|i: int| 0 <= i < directory_values(params).len() implies #[trigger] directory_values(params)[i].len() > 0 by {
            if i < rest.len() {
                assert(directory_values(params)[i] == rest[i]);
            }
        }
    }
}

/// The directory that `first_prefix_index` picks is the first one that
/// `path` starts with (a leading segment of `path`, not a part further
/// inside it); when it picks none, no directory is a leading segment of
/// `path`.
pub proof fn first_match_is_the_first_leading_segment(dirs: Seq<Seq<char>>, path: Seq<char>)
    ensures
        ({
            let i = first_prefix_index(dirs, path);
            &&& 0 <= i <= dirs.len()
            &&& i < dirs.len() ==> dirs[i].len() <= path.len() && path.take(dirs[i].len() as int)
                == dirs[i]
            &&& forall|j: int|
                0 <= j < i ==> !(dirs[j].len() <= path.len() && path.take(dirs[j].len() as int)
                    == dirs[j])
        }),
{
    lemma_first_prefix_index(dirs, path);
    let i = first_prefix_index(dirs, path);
    if i < dirs.len() {
        is_prefix_is_a_leading_segment(dirs[i], path);
    }
    assert forall|j: int| 0 <= j < i implies !(dirs[j].len() <= path.len() && path.take(
        dirs[j].len() as int,
    ) == dirs[j]) by {
        is_prefix_is_a_leading_segment(dirs[j], path);
    }
}

/// Runtime configuration for needre.
#[derive(Debug, Clone)]
pub struct Config {
    /// Directory path prefixes to monitor. An execve whose binary path starts
    /// with any of these raises a detection.
    pub monitor_dirs: Vec<String>,
}

/// The config path: the value of `NEEDRE_CONFIG` when it is set, else the
/// default path.
pub fn config_path(env_value: Option<String>) -> (path: String)
    ensures
        path@ == match env_value {
            Some(v) => v@,
            None => DEFAULT_CONFIG_PATH@,
        },
{
    match env_value {
        Some(v) => v,
        None => DEFAULT_CONFIG_PATH.to_owned(),
    }
}

impl Config {
    /// The configuration used when no config file is present: monitor
    /// `/tmp` only.
    pub fn with_default_dir() -> (c: Config)
        ensures
            c.monitor_dirs.deep_view() == seq![DEFAULT_MONITOR_DIR@],
            c.monitor_dirs.len() == 1,
    {
        let mut dirs: Vec<String> = Vec::new();
        dirs.push(DEFAULT_MONITOR_DIR.to_owned());
        let c = Config { monitor_dirs: dirs };
        assert(c.monitor_dirs.deep_view() =~= seq![DEFAULT_MONITOR_DIR@]);
        c
    }

    /// Interpret parsed categories into a [`Config`]: the non-empty values of
    /// the `directory` parameters of `processmonitor`, in file order.
    pub fn from_sections(sections: &Sections) -> (c: Config)
        ensures
            c.monitor_dirs.deep_view() == monitored_dirs(sections@),
    {
        let mut dirs: Vec<String> = Vec::new();
        match sections.get(SECTION_PROCESS_MONITOR) {
            Some(params) => {
                let key = KEY_DIRECTORY.to_owned();
                let mut i: usize = 0;
                assert(params.deep_view().take(0) =~= Seq::<ParamView>::empty());
                while i < params.len()
                    invariant
                        i <= params.len(),
                        key@ == KEY_DIRECTORY@,
                        dirs.deep_view() == directory_values(params.deep_view().take(i as int)),
                    decreases params.len() - i,
                {
                    let ghost before = dirs.deep_view();
                    let p = &params[i];
                    if p.0 == key && !p.1.as_str().is_empty() {
                        dirs.push(p.1.clone());
                        assert(dirs.deep_view() =~= before.push(p.1@));
                    }
                    i = i + 1;
                    proof {
                        let taken = params.deep_view().take(i as int);
                        assert(taken.drop_last() =~= params.deep_view().take(i - 1));
                        assert(taken.last() == params.deep_view()[i - 1]);
                    }
                }
                assert(params.deep_view().take(i as int) =~= params.deep_view());
            },
            None => {
                assert(dirs.deep_view() =~= Seq::<Seq<char>>::empty());
            },
        }
        Config { monitor_dirs: dirs }
    }

    /// Parse a config text, falling back to the default directory if it
    /// monitors none; the flag tells whether the fallback was taken.
    pub fn from_text(text: &str) -> (r: (Config, bool))
        ensures
            ({
                let dirs = monitored_dirs(parse_text(text@));
                &&& r.1 == (dirs.len() == 0)
                &&& r.0.monitor_dirs.deep_view() == if dirs.len() > 0 {
                    dirs
                } else {
                    seq![DEFAULT_MONITOR_DIR@]
                }
            }),
            r.0.monitor_dirs.len() > 0,
    {
        let sections = parse(text);
        let config = Self::from_sections(&sections);
        if config.monitor_dirs.len() == 0 {
            (Self::with_default_dir(), true)
        } else {
            (config, false)
        }
    }

    /// Return the first monitored prefix that `path` starts with, if any.
    pub fn matching_prefix<'a>(&'a self, path: &str) -> (r: Option<&'a str>)
        ensures
            ({
                let dirs = self.monitor_dirs.deep_view();
                let i = first_prefix_index(dirs, path@);
                match r {
                    Some(p) => i < dirs.len() && p@ == dirs[i],
                    None => i >= dirs.len(),
                }
            }),
            ({
                let dirs = self.monitor_dirs.deep_view();
                match r {
                    Some(p) => {
                        &&& p@.len() <= path@.len()
                        &&& path@.take(p@.len() as int) == p@
                        &&& exists|i: int|
                            0 <= i < dirs.len() && dirs[i] == p@ && forall|j: int|
                                0 <= j < i ==> !(dirs[j].len() <= path@.len() && path@.take(
                                    dirs[j].len() as int,
                                ) == dirs[j])
                    },
                    None => forall|i: int|
                        0 <= i < dirs.len() ==> !(dirs[i].len() <= path@.len() && path@.take(
                            dirs[i].len() as int,
                        ) == dirs[i]),
                }
            }),
    {
        proof {
            first_match_is_the_first_leading_segment(self.monitor_dirs.deep_view(), path@);
        }
        let path_chars = chars_of(path);
        let mut i: usize = 0;
        while i < self.monitor_dirs.len()
            invariant
                i <= self.monitor_dirs.len(),
                path_chars@ == path@,
                forall|j: int|
                    0 <= j < i ==> !is_prefix(self.monitor_dirs.deep_view()[j], path@),
            decreases self.monitor_dirs.len() - i,
        {
            let prefix = self.monitor_dirs[i].as_str();
            let prefix_chars = chars_of(prefix);
            if starts_with_chars(&path_chars, &prefix_chars) {
                proof {
                    let dirs = self.monitor_dirs.deep_view();
                    lemma_first_prefix_index(dirs, path@);
                    assert(dirs[i as int] == prefix@);
                    let q = first_prefix_index(dirs, path@);
                    if q < i {
                        assert(!is_prefix(dirs[q], path@));
                    }
                }
                return Some(prefix);
            }
            i = i + 1;
        }
        proof {
            lemma_first_prefix_index(self.monitor_dirs.deep_view(), path@);
        }
        None
    }
}

} // verus!
