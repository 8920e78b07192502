//! Store-level rules: offset parsing, the config file, folder-name
//! allocation, listing, and the close transition.

use crate::datetime::{civil_of, format_spec, DateTime, MAX_CIVIL_SECS};
use crate::lines::{join_lines_nl, lines_spec, split_lines, views_of};
use vstd::multiset::Multiset;
use crate::task::{parse_spec, ParseError, Status, Task, TaskView};
use crate::text::{
    digit_val, hex_of, is_digit_char, lemma_hex_of_len, lemma_lex_le_total, lemma_lex_le_trans,
    lex_le, str_eq, str_lex_le, trim, trim_spec, u64_to_hex,
};
use std::collections::hash_map::DefaultHasher;
use std::hash::Hasher;
use vstd::prelude::*;
use vstd::std_specs::hash::DefaultHasherAdditionalSpecFns;
use vstd::utf8::encode_utf8;

verus! {

/// A store that lives under one root directory. The engine never touches
/// the file system itself: callers resolve the root, read and write files,
/// and hand content through the functions of this module.
pub struct Store {
    pub root: String,
}

/// Why a store operation was refused.
#[derive(Debug, PartialEq, Eq, Clone, Copy, Structural)]
pub enum StoreError {
    /// The config file holds no offset line.
    ConfigMissing,
    /// The config file's offset line does not parse.
    ConfigInvalid,
    /// A new timezone string was rejected by the offset parser.
    InvalidOffsetFormat,
    /// A display index is out of range.
    TaskNotFound,
    /// The addressed task is already closed.
    TaskAlreadyClosed,
}

/// A syntactically valid offset string: a sign, two digits, `:`, two digits.
pub open spec fn valid_offset(s: Seq<char>) -> bool {
    &&& s.len() == 6
    &&& (s[0] == '+' || s[0] == '-')
    &&& is_digit_char(s[1])
    &&& is_digit_char(s[2])
    &&& s[3] == ':'
    &&& is_digit_char(s[4])
    &&& is_digit_char(s[5])
}

/// The signed second count a valid offset string denotes.
pub open spec fn offset_seconds(s: Seq<char>) -> int {
    let hours = digit_val(s[1]) * 10 + digit_val(s[2]);
    let minutes = digit_val(s[4]) * 10 + digit_val(s[5]);
    let secs = hours * 3600 + minutes * 60;
    if s[0] == '-' {
        -secs
    } else {
        secs
    }
}

/// Validates and converts a signed `HH:MM` UTC-offset string to a signed
/// second count. Hours and minutes are deliberately not range-checked, so
/// `+99:99` is accepted and yields a large offset.
pub fn parse_offset(s: &str) -> (r: Option<i32>)
    ensures
        r == (if valid_offset(s@) {
            Some(offset_seconds(s@) as i32)
        } else {
            None::<i32>
        }),
{
    if s.unicode_len() != 6 {
        return None;
    }
    let sign = s.get_char(0);
    if !(sign == '+' || sign == '-') {
        return None;
    }
    if s.get_char(3) != ':' {
        return None;
    }
    let d1 = s.get_char(1) as u32;
    let d2 = s.get_char(2) as u32;
    let d4 = s.get_char(4) as u32;
    let d5 = s.get_char(5) as u32;
    if d1 < 48 || d1 > 57 || d2 < 48 || d2 > 57 || d4 < 48 || d4 > 57 || d5 < 48 || d5 > 57 {
        return None;
    }
    let hours = ((d1 - 48) * 10 + (d2 - 48)) as i32;
    let minutes = ((d4 - 48) * 10 + (d5 - 48)) as i32;
    let secs = hours * 3600 + minutes * 60;
    if sign == '-' {
        Some(-secs)
    } else {
        Some(secs)
    }
}

/// The offset found scanning config lines from `j` on: blank and
/// `#`-comment lines are skipped, the first other line must parse as an
/// offset, and a config without any offset line is its own error.
pub open spec fn config_scan_spec(ls: Seq<Seq<char>>, j: int) -> Result<int, StoreError>
    decreases ls.len() - j,
{
    if j < 0 || j >= ls.len() {
        Err(StoreError::ConfigMissing)
    } else {
        let t = trim_spec(ls[j]);
        if t.len() == 0 || t[0] == '#' {
            config_scan_spec(ls, j + 1)
        } else if valid_offset(t) {
            Ok(offset_seconds(t))
        } else {
            Err(StoreError::ConfigInvalid)
        }
    }
}

/// The offset a config file holds.
pub open spec fn parse_config_spec(s: Seq<char>) -> Result<int, StoreError> {
    config_scan_spec(lines_spec(s), 0)
}

/// Scans config lines for the offset from line `j` on.
fn config_scan(ls: &Vec<String>, j: usize) -> (r: Result<i32, StoreError>)
    requires
        j <= ls@.len(),
    ensures
        r matches Ok(v) ==> config_scan_spec(views_of(ls@), j as int) == Ok::<int, StoreError>(
            v as int,
        ),
        r matches Err(e) ==> config_scan_spec(views_of(ls@), j as int) == Err::<int, StoreError>(
            e,
        ),
    decreases ls@.len() - j,
{
    if j == ls.len() {
        return Err(StoreError::ConfigMissing);
    }
    let line = ls[j].as_str();
    proof {
        assert(views_of(ls@)[j as int] == line@);
    }
    let t = trim(line);
    let tlen = t.unicode_len();
    if tlen == 0 || t.get_char(0) == '#' {
        config_scan(ls, j + 1)
    } else {
        match parse_offset(t) {
            Some(v) => Ok(v),
            None => Err(StoreError::ConfigInvalid),
        }
    }
}

/// Reads the persisted offset out of config file content: comment and blank
/// lines are ignored, the first other line must be a valid offset string.
pub fn parse_config(content: &str) -> (r: Result<i32, StoreError>)
    ensures
        r matches Ok(v) ==> parse_config_spec(content@) == Ok::<int, StoreError>(v as int),
        r matches Err(e) ==> parse_config_spec(content@) == Err::<int, StoreError>(e),
{
    let ls = split_lines(content);
    config_scan(&ls, 0)
}

/// The exact content of a config file carrying `tz`: two fixed comment
/// lines, then the offset line.
pub open spec fn config_content_spec(tz: Seq<char>) -> Seq<char> {
    "# Configuration for tafsk store\n"@ + "# Timezone offset (e.g. +09:30, -05:00)\n"@ + tz
}

/// Builds the config file content for a new timezone, refusing a string the
/// offset parser rejects.
pub fn config_content(timezone: &str) -> (r: Result<String, StoreError>)
    ensures
        r matches Ok(c) ==> valid_offset(timezone@) && c@ == config_content_spec(timezone@),
        r matches Err(e) ==> !valid_offset(timezone@) && e == StoreError::InvalidOffsetFormat,
{
    if parse_offset(timezone).is_none() {
        return Err(StoreError::InvalidOffsetFormat);
    }
    let mut s = String::new();
    s.append("# Configuration for tafsk store\n");
    s.append("# Timezone offset (e.g. +09:30, -05:00)\n");
    s.append(timezone);
    proof {
        assert(s@ =~= config_content_spec(timezone@));
    }
    Ok(s)
}

/// The config file content of a fresh store: offset `+00:00`.
pub fn default_config_content() -> (r: String)
    ensures
        r@ == config_content_spec("+00:00"@),
        parse_config_spec(r@) == Ok::<int, StoreError>(0),
{
    let mut s = String::new();
    s.append("# Configuration for tafsk store\n");
    s.append("# Timezone offset (e.g. +09:30, -05:00)\n");
    s.append("+00:00");
    proof {
        assert(s@ =~= config_content_spec("+00:00"@));
        lemma_default_config_parses(s@);
    }
    s
}

/// The default config content parses back to offset zero.
proof fn lemma_default_config_parses(s: Seq<char>)
    requires
        s == config_content_spec("+00:00"@),
    ensures
        parse_config_spec(s) == Ok::<int, StoreError>(0),
{
    reveal_strlit("# Configuration for tafsk store\n");
    reveal_strlit("# Timezone offset (e.g. +09:30, -05:00)\n");
    reveal_strlit("+00:00");
    let l1 = "# Configuration for tafsk store"@;
    let l2 = "# Timezone offset (e.g. +09:30, -05:00)"@;
    let l3 = "+00:00"@;
    reveal_strlit("# Configuration for tafsk store");
    reveal_strlit("# Timezone offset (e.g. +09:30, -05:00)");
    assert(s =~= l1 + seq!['\n'] + (l2 + seq!['\n'] + l3));
    crate::lines::lemma_split_char_piece(l1, l2 + seq!['\n'] + l3, '\n');
    crate::lines::lemma_split_char_piece(l2, l3, '\n');
    crate::lines::lemma_split_char_no_sep(l3, '\n');
    let ps = crate::lines::split_char(s, '\n');
    assert(ps =~= seq![l1] + (seq![l2] + seq![l3]));
    assert(ps.last() == l3);
    assert(l3.len() == 6);
    let ls = lines_spec(s);
    assert(ps.drop_last() =~= seq![l1, l2]);
    crate::lines::lemma_strip_pieces_index(seq![l1, l2]);
    assert(crate::lines::strip_cr(l1) == l1);
    assert(crate::lines::strip_cr(l2) == l2);
    assert(crate::lines::strip_pieces(seq![l1, l2]) =~= seq![l1, l2]);
    assert(ls =~= seq![l1, l2, l3]);
    assert(trim_spec(l1) == l1) by {
        crate::text::lemma_trim_of_trimmed(l1);
    }
    assert(trim_spec(l2) == l2) by {
        crate::text::lemma_trim_of_trimmed(l2);
    }
    assert(trim_spec(l3) == l3) by {
        crate::text::lemma_trim_of_trimmed(l3);
    }
    assert(valid_offset(l3));
    assert(offset_seconds(l3) == 0);
    assert(ls[0] == l1 && ls[1] == l2 && ls[2] == l3);
    assert(l1[0] == '#' && l2[0] == '#');
    assert(config_scan_spec(ls, 0) == config_scan_spec(ls, 1));
    assert(config_scan_spec(ls, 1) == config_scan_spec(ls, 2));
    assert(config_scan_spec(ls, 2) == Ok::<int, StoreError>(0));
}

/// The non-cryptographic fingerprint of rendered task content: the top
/// eight hexadecimal digits of the standard library's default (SipHash)
/// hash of the content bytes. Collisions are accepted, not detected; a
/// stronger hash would be a change to this one function.
pub open spec fn fingerprint_of(content: Seq<char>) -> Seq<char> {
    hex_of(
        DefaultHasher::spec_finish(seq![encode_utf8(content)]) as int / 0x1_0000_0000,
        8,
    )
}

/// Computes the content fingerprint.
pub fn fingerprint(content: &str) -> (r: String)
    ensures
        r@ == fingerprint_of(content@),
        r@.len() == 8,
{
    let mut hasher = DefaultHasher::new();
    hasher.write(content.as_bytes());
    let h = hasher.finish();
    proof {
        assert(hasher@ =~= seq![encode_utf8(content@)]);
        lemma_hex_of_len((h / 0x1_0000_0000) as int, 8);
    }
    u64_to_hex(h / 0x1_0000_0000, 8)
}

/// The date-time value for an adjusted timestamp.
pub open spec fn civil_datetime(ts: int) -> DateTime {
    let (y, m, d, h, mi, s) = civil_of(ts);
    DateTime {
        year: y as i32,
        month: m as u8,
        day: d as u8,
        hour: h as u8,
        minute: mi as u8,
        second: s as u8,
    }
}

/// A task's identity: the sortable timestamp rendering, a dot, and the
/// content fingerprint.
pub open spec fn folder_name_spec(ts: int, content: Seq<char>) -> Seq<char> {
    format_spec(civil_datetime(ts)) + seq!['.'] + fingerprint_of(content)
}

/// Allocates the folder name for a task created at `timestamp` under the
/// store's `offset`, from its rendered content.
pub fn folder_name(timestamp: u64, offset: i32, content: &str) -> (r: String)
    requires
        timestamp + offset <= MAX_CIVIL_SECS,
    ensures
        r@ == folder_name_spec(timestamp + offset, content@),
{
    let dt = DateTime::new(timestamp, offset);
    proof {
        assert(dt == civil_datetime(timestamp + offset));
    }
    let mut s = dt.format();
    proof {
        reveal_strlit(".");
        assert("."@ =~= seq!['.']);
    }
    s.append(".");
    let fp = fingerprint(content);
    s.append(fp.as_str());
    proof {
        assert(s@ =~= folder_name_spec(timestamp + offset, content@));
    }
    s
}

/// Law: chronological order of creation instants gives lexicographic order
/// of the sortable folder-name prefix, throughout the four-digit-year
/// range, whatever the fingerprint suffixes are.
pub proof fn lemma_timestamp_prefix_sorts(ts1: int, ts2: int)
    requires
        -0x8000_0000 <= ts1 <= ts2 <= crate::datetime::LAST_FOUR_DIGIT_SEC,
    ensures
        lex_le(format_spec(civil_datetime(ts1)), format_spec(civil_datetime(ts2))),
{
    assert(crate::datetime::LAST_FOUR_DIGIT_SEC <= MAX_CIVIL_SECS);
    crate::datetime::lemma_civil_monotone(ts1, ts2);
    crate::datetime::lemma_civil_field_bounds(ts1);
    crate::datetime::lemma_civil_field_bounds(ts2);
    let a = civil_datetime(ts1);
    let b = civil_datetime(ts2);
    assert(crate::datetime::dt_le(a, b));
    crate::datetime::lemma_format_sorts(a, b);
}

/// The mathematical image of a listed task: folder name and task value.
pub open spec fn listed_view(p: (String, Task)) -> (Seq<char>, TaskView) {
    (p.0@, p.1@)
}

/// The images of a listing.
pub open spec fn listed_views(s: Seq<(String, Task)>) -> Seq<(Seq<char>, TaskView)> {
    Seq::new(s.len(), |i: int| listed_view(s[i]))
}

/// Sorts a listing by folder name ascending.
pub fn sort_by_folder(tasks: Vec<(String, Task)>) -> (r: Vec<(String, Task)>)
    ensures
        listed_views(r@).to_multiset() == listed_views(tasks@).to_multiset(),
        forall|i: int, j: int|
            0 <= i < j < r@.len() ==> lex_le(#[trigger] r@[i].0@, #[trigger] r@[j].0@),
{
    broadcast use vstd::seq_lib::group_to_multiset_ensures;
    broadcast use vstd::multiset::group_multiset_axioms;

    let mut rest = tasks;
    let mut out: Vec<(String, Task)> = Vec::new();
    proof {
        assert(listed_views(out@) =~= Seq::<(Seq<char>, TaskView)>::empty());
        assert(listed_views(out@).to_multiset().add(listed_views(rest@).to_multiset())
            =~= listed_views(tasks@).to_multiset());
    }
    while rest.len() > 0
        invariant
            listed_views(out@).to_multiset().add(listed_views(rest@).to_multiset())
                == listed_views(tasks@).to_multiset(),
            forall|i: int, j: int|
                0 <= i < j < out@.len() ==> lex_le(#[trigger] out@[i].0@, #[trigger] out@[j].0@),
            forall|i: int, j: int|
                0 <= i < out@.len() && 0 <= j < rest@.len() ==> lex_le(
                    #[trigger] out@[i].0@,
                    #[trigger] rest@[j].0@,
                ),
        decreases rest@.len(),
    {
        let mut m: usize = 0;
        let mut k: usize = 1;
        proof {
            lemma_lex_le_total(rest@[0].0@, rest@[0].0@);
        }
        while k < rest.len()
            invariant
                0 <= m < k <= rest@.len(),
                rest@.len() > 0,
                forall|j: int| 0 <= j < k ==> lex_le(rest@[m as int].0@, #[trigger] rest@[j].0@),
            decreases rest@.len() - k,
        {
            if str_lex_le(rest[k].0.as_str(), rest[m].0.as_str()) {
                proof {
                    let old_m = m as int;
                    assert forall|j: int| 0 <= j < k + 1 implies lex_le(
                        rest@[k as int].0@,
                        #[trigger] rest@[j].0@,
                    ) by {
                        if j < k {
                            lemma_lex_le_trans(rest@[k as int].0@, rest@[old_m].0@, rest@[j].0@);
                        } else {
                            lemma_lex_le_total(rest@[k as int].0@, rest@[k as int].0@);
                        }
                    }
                }
                m = k;
            } else {
                proof {
                    lemma_lex_le_total(rest@[k as int].0@, rest@[m as int].0@);
                }
            }
            k = k + 1;
        }
        let ghost rest_old = rest@;
        let ghost out_old = out@;
        let e = rest.remove(m);
        proof {
            listed_views(rest_old).to_multiset_ensures();
            listed_views(out_old).to_multiset_ensures();
            assert(listed_views(rest_old)[m as int] == listed_view(e));
            assert(listed_views(rest@) =~= listed_views(rest_old).remove(m as int));
            assert(listed_views(rest_old).remove(m as int).to_multiset() =~= listed_views(
                rest_old,
            ).to_multiset().remove(listed_view(e)));
            assert(listed_views(out_old.push(e)) =~= listed_views(out_old).push(listed_view(e)));
            assert(listed_views(rest_old).to_multiset().count(listed_view(e)) > 0) by {
                assert(listed_views(rest_old)[m as int] == listed_view(e));
                assert(listed_views(rest_old).contains(listed_view(e)));
            }
            assert(listed_views(out_old).push(listed_view(e)).to_multiset().add(
                listed_views(rest_old).to_multiset().remove(listed_view(e)),
            ) =~= listed_views(out_old).to_multiset().add(listed_views(rest_old).to_multiset()));
        }
        out.push(e);
        proof {
            assert(out@ == out_old.push(e));
            assert(forall|j: int|
                0 <= j < rest@.len() ==> rest@[j] == rest_old.remove(m as int)[j]);
        }
    }
    proof {
        assert(listed_views(rest@) =~= Seq::<(Seq<char>, TaskView)>::empty());
        assert(listed_views(out@).to_multiset().add(Multiset::<(Seq<char>, TaskView)>::empty())
            =~= listed_views(out@).to_multiset());
    }
    out
}

/// Whether a folder name is hidden from listings.
pub open spec fn hidden_name(name: Seq<char>) -> bool {
    name.len() > 0 && name[0] == '.'
}

/// The visible, well-formed entries of a store, in entry order.
pub open spec fn parsed_entries(es: Seq<(String, String)>) -> Seq<(Seq<char>, TaskView)>
    decreases es.len(),
{
    if es.len() == 0 {
        Seq::empty()
    } else {
        let rest = parsed_entries(es.drop_last());
        let e = es.last();
        if !hidden_name(e.0@) && parse_spec(e.1@) is Ok {
            rest.push((e.0@, parse_spec(e.1@)->Ok_0))
        } else {
            rest
        }
    }
}

/// The visible entries whose content fails to parse, with their errors, in
/// entry order.
pub open spec fn warned_entries(es: Seq<(String, String)>) -> Seq<(Seq<char>, ParseError)>
    decreases es.len(),
{
    if es.len() == 0 {
        Seq::empty()
    } else {
        let rest = warned_entries(es.drop_last());
        let e = es.last();
        if !hidden_name(e.0@) && parse_spec(e.1@) is Err {
            rest.push((e.0@, parse_spec(e.1@)->Err_0))
        } else {
            rest
        }
    }
}

/// The images of a warning list.
pub open spec fn warn_views(s: Seq<(String, ParseError)>) -> Seq<(Seq<char>, ParseError)> {
    Seq::new(s.len(), |i: int| (s[i].0@, s[i].1))
}

/// Assembles a store listing from directory entries, each a folder name
/// with its task file content: hidden folders are skipped, content that
/// fails to parse becomes a non-fatal warning, and the surviving tasks come
/// back sorted by folder name ascending, whatever order the entries came
/// in. An empty entry list yields an empty listing.
pub fn collect_tasks(entries: Vec<(String, String)>) -> (r: (
    Vec<(String, Task)>,
    Vec<(String, ParseError)>,
))
    ensures
        listed_views(r.0@).to_multiset() == parsed_entries(entries@).to_multiset(),
        forall|i: int, j: int|
            0 <= i < j < r.0@.len() ==> lex_le(#[trigger] r.0@[i].0@, #[trigger] r.0@[j].0@),
        warn_views(r.1@) == warned_entries(entries@),
        entries@.len() == 0 ==> r.0@.len() == 0 && r.1@.len() == 0,
{
    broadcast use vstd::seq_lib::group_to_multiset_ensures;

    let mut found: Vec<(String, Task)> = Vec::new();
    let mut warns: Vec<(String, ParseError)> = Vec::new();
    let mut i: usize = 0;
    proof {
        assert(listed_views(found@) =~= parsed_entries(entries@.take(0)));
        assert(warn_views(warns@) =~= warned_entries(entries@.take(0)));
    }
    while i < entries.len()
        invariant
            0 <= i <= entries@.len(),
            listed_views(found@) == parsed_entries(entries@.take(i as int)),
            warn_views(warns@) == warned_entries(entries@.take(i as int)),
        decreases entries@.len() - i,
    {
        let name = entries[i].0.as_str();
        let content = entries[i].1.as_str();
        let ghost before_found = found@;
        let ghost before_warns = warns@;
        let is_hidden = name.unicode_len() > 0 && name.get_char(0) == '.';
        if !is_hidden {
            match Task::parse(content) {
                Ok(t) => {
                    found.push((name.to_owned(), t));
                },
                Err(e) => {
                    warns.push((name.to_owned(), e));
                },
            }
        }
        proof {
            let pre = entries@.take(i as int);
            let cur = entries@.take(i + 1);
            assert(cur.drop_last() =~= pre);
            assert(cur.last() == entries@[i as int]);
            if !is_hidden && parse_spec(content@) is Ok {
                assert(listed_views(found@) =~= listed_views(before_found).push(
                    (name@, parse_spec(content@)->Ok_0),
                ));
                assert(warn_views(warns@) =~= warn_views(before_warns));
            } else if !is_hidden {
                assert(warn_views(warns@) =~= warn_views(before_warns).push(
                    (name@, parse_spec(content@)->Err_0),
                ));
                assert(listed_views(found@) =~= listed_views(before_found));
            } else {
                assert(listed_views(found@) =~= listed_views(before_found));
                assert(warn_views(warns@) =~= warn_views(before_warns));
            }
        }
        i = i + 1;
    }
    proof {
        assert(entries@.take(entries@.len() as int) =~= entries@);
    }
    let sorted = sort_by_folder(found);
    proof {
        if entries@.len() == 0 {
            assert(parsed_entries(entries@).to_multiset() =~= Multiset::<
                (Seq<char>, TaskView),
            >::empty());
            assert(listed_views(sorted@).to_multiset().len() == 0);
            assert(listed_views(sorted@).len() == sorted@.len());
        }
    }
    (sorted, warns)
}

/// Resolves a one-based display index against a listing for the close
/// transition: out-of-range indexes are unknown tasks, an already-closed
/// task is refused and left untouched, and an open task resolves to its
/// zero-based position.
pub fn find_task(tasks: &Vec<(String, Task)>, id: usize) -> (r: Result<usize, StoreError>)
    ensures
        id == 0 || id > tasks@.len() ==> r == Err::<usize, StoreError>(StoreError::TaskNotFound),
        1 <= id <= tasks@.len() && tasks@[id - 1].1.status == Status::Closed ==> r == Err::<
            usize,
            StoreError,
        >(StoreError::TaskAlreadyClosed),
        1 <= id <= tasks@.len() && tasks@[id - 1].1.status == Status::Open ==> r == Ok::<
            usize,
            StoreError,
        >((id - 1) as usize),
{
    if id == 0 || id > tasks.len() {
        return Err(StoreError::TaskNotFound);
    }
    if tasks[id - 1].1.status == Status::Closed {
        Err(StoreError::TaskAlreadyClosed)
    } else {
        Ok(id - 1)
    }
}

/// The line that marks an open task in a task file.
pub open spec fn open_status_line() -> Seq<char> {
    seq!['s', 't', 'a', 't', 'u', 's', ':', ' ', 'O', 'P', 'E', 'N']
}

/// The line that marks a closed task in a task file.
pub open spec fn closed_status_line() -> Seq<char> {
    seq!['s', 't', 'a', 't', 'u', 's', ':', ' ', 'C', 'L', 'O', 'S', 'E', 'D']
}

/// The front-matter delimiter line.
pub open spec fn delim_line() -> Seq<char> {
    seq!['-', '-', '-']
}

/// The least index at or after `j` holding a `---` line, or the line count
/// when there is none.
pub open spec fn find_delim_from(ls: Seq<Seq<char>>, j: int) -> int
    decreases ls.len() - j,
{
    if j < 0 || j >= ls.len() {
        ls.len() as int
    } else if ls[j] == delim_line() {
        j
    } else {
        find_delim_from(ls, j + 1)
    }
}

/// What `find_delim_from` returns: the least delimiter position at or after
/// `j`, or the line count.
proof fn lemma_find_delim_from(ls: Seq<Seq<char>>, j: int)
    requires
        0 <= j <= ls.len(),
    ensures
        ({
            let r = find_delim_from(ls, j);
            &&& j <= r <= ls.len()
            &&& (r < ls.len() ==> ls[r] == delim_line())
            &&& forall|i: int| j <= i < r ==> #[trigger] ls[i] != delim_line()
        }),
    decreases ls.len() - j,
{
    if j < ls.len() && ls[j] != delim_line() {
        lemma_find_delim_from(ls, j + 1);
    }
}

/// Where the front matter ends: the index of the first closing `---` line
/// (the opening delimiter is line zero), or the line count when the block
/// never closes.
pub open spec fn front_matter_end(ls: Seq<Seq<char>>) -> int {
    find_delim_from(ls, 1)
}

/// Every front-matter line exactly equal to `status: OPEN` replaced by
/// `status: CLOSED`; the closing delimiter and every line after it are
/// untouched, as is every other header line.
pub open spec fn close_lines(ls: Seq<Seq<char>>) -> Seq<Seq<char>> {
    Seq::new(
        ls.len(),
        |i: int|
            if i < front_matter_end(ls) && ls[i] == open_status_line() {
                closed_status_line()
            } else {
                ls[i]
            },
    )
}

/// The content of a task file after the close transition: the single-line
/// replacement applied inside the front matter only, lines rejoined with
/// line feeds, and one trailing line feed. Everything at or after the
/// closing delimiter comes back byte-for-byte unchanged.
pub open spec fn close_content_spec(s: Seq<char>) -> Seq<char> {
    crate::lines::join_nl(close_lines(lines_spec(s))) + seq!['\n']
}

/// Rewrites task file content to mark the task closed.
pub fn close_content(content: &str) -> (r: String)
    ensures
        r@ == close_content_spec(content@),
{
    let ls = split_lines(content);
    let ghost lsv = lines_spec(content@);
    let n = ls.len();
    // Find the closing front-matter delimiter.
    let mut j: usize = 1;
    while j < n && !str_eq(ls[j].as_str(), "---")
        invariant
            1 <= j,
            n > 0 ==> j <= n,
            n == ls@.len(),
            views_of(ls@) == lsv,
            forall|i: int| 1 <= i < j ==> #[trigger] lsv[i] != delim_line(),
        decreases n - j,
    {
        proof {
            reveal_strlit("---");
            assert("---"@ =~= delim_line());
            assert(lsv[j as int] == ls@[j as int]@);
        }
        j = j + 1;
    }
    let boundary: usize = if j < n {
        j
    } else {
        n
    };
    proof {
        reveal_strlit("---");
        assert("---"@ =~= delim_line());
        let r = front_matter_end(lsv);
        if n == 0 {
            assert(r == 0);
        } else if j < n {
            lemma_find_delim_from(lsv, 1);
            assert(lsv[j as int] == ls@[j as int]@);
            assert(lsv[j as int] == delim_line());
            if r < j {
                assert(lsv[r] == delim_line());
            }
            if r > j {
                assert(lsv[j as int] != delim_line());
            }
        } else {
            lemma_find_delim_from(lsv, 1);
            if r < n {
                assert(lsv[r] == delim_line());
            }
        }
        assert(front_matter_end(lsv) == boundary as int);
    }
    let mut out: Vec<String> = Vec::new();
    let mut i: usize = 0;
    proof {
        assert(views_of(out@) =~= close_lines(lsv).take(0));
    }
    while i < n
        invariant
            0 <= i <= n,
            n == ls@.len(),
            views_of(ls@) == lsv,
            boundary as int == front_matter_end(lsv),
            views_of(out@) =~= close_lines(lsv).take(i as int),
        decreases n - i,
    {
        proof {
            reveal_strlit("status: OPEN");
            reveal_strlit("status: CLOSED");
            assert("status: OPEN"@ =~= open_status_line());
            assert("status: CLOSED"@ =~= closed_status_line());
            assert(lsv[i as int] == ls@[i as int]@);
        }
        let ghost before = out@;
        if i < boundary && str_eq(ls[i].as_str(), "status: OPEN") {
            let replacement = "status: CLOSED".to_owned();
            proof {
                assert(views_of(before.push(replacement)) =~= views_of(before).push(
                    closed_status_line(),
                ));
            }
            out.push(replacement);
        } else {
            let kept = ls[i].clone();
            proof {
                assert(views_of(before.push(kept)) =~= views_of(before).push(lsv[i as int]));
            }
            out.push(kept);
        }
        proof {
            assert(views_of(out@) =~= close_lines(lsv).take(i + 1));
        }
        i = i + 1;
    }
    proof {
        assert(close_lines(lsv).take(n as int) =~= close_lines(lsv));
    }
    join_lines_nl(&out)
}

/// Law: the close rewrite leaves the rendered file of an already-closed
/// task byte-for-byte unchanged.
#[verifier::rlimit(100)]
pub proof fn lemma_close_preserves_closed(t: TaskView)
    requires
        crate::task::valid_task(t),
        t.status == Status::Closed,
    ensures
        close_content_spec(crate::task::render_spec(t)) == crate::task::render_spec(t),
{
    crate::task::lemma_lines_of_render(t);
    let l1 = seq!['-', '-', '-'];
    let l2 = seq!['s', 't', 'a', 't', 'u', 's', ':', ' '] + crate::task::status_str(t.status);
    let l3 = seq!['p', 'r', 'i', 'o', 'r', 'i', 't', 'y', ':', ' '] + crate::text::dec_of(
        t.priority as int,
    );
    let l4 = seq!['t', 'a', 'g', 's', ':', ' ', '['] + crate::task::join_tags(t.tags) + seq![']'];
    let l7 = seq!['#', ' '] + t.title;
    let e = Seq::<char>::empty();
    let ls = lines_spec(crate::task::render_spec(t));
    assert(ls == seq![l1, l2, l3, l4, l1, e, l7, e, e]);
    assert(l2.len() == 14);
    assert(l2 != open_status_line());
    assert(l1 != open_status_line());
    assert(l3[0] == 'p' && l3 != open_status_line());
    assert(l4[0] == 't' && l4 != open_status_line());
    assert(l7[0] == '#' && l7 != open_status_line());
    assert(e != open_status_line());
    assert(close_lines(ls) =~= ls) by {
        assert forall|p: int| 0 <= p < ls.len() implies close_lines(ls)[p] == ls[p] by {
            assert(ls[p] != open_status_line());
        }
    }
    let nl = seq!['\n'];
    assert(crate::lines::join_nl(ls.take(1)) == l1);
    assert(ls.take(2).drop_last() =~= ls.take(1));
    assert(crate::lines::join_nl(ls.take(2)) == l1 + nl + l2);
    assert(ls.take(3).drop_last() =~= ls.take(2));
    assert(crate::lines::join_nl(ls.take(3)) == crate::lines::join_nl(ls.take(2)) + nl + l3);
    assert(ls.take(4).drop_last() =~= ls.take(3));
    assert(crate::lines::join_nl(ls.take(4)) == crate::lines::join_nl(ls.take(3)) + nl + l4);
    assert(ls.take(5).drop_last() =~= ls.take(4));
    assert(crate::lines::join_nl(ls.take(5)) == crate::lines::join_nl(ls.take(4)) + nl + l1);
    assert(ls.take(6).drop_last() =~= ls.take(5));
    assert(crate::lines::join_nl(ls.take(6)) == crate::lines::join_nl(ls.take(5)) + nl + e);
    assert(ls.take(7).drop_last() =~= ls.take(6));
    assert(crate::lines::join_nl(ls.take(7)) == crate::lines::join_nl(ls.take(6)) + nl + l7);
    assert(ls.take(8).drop_last() =~= ls.take(7));
    assert(crate::lines::join_nl(ls.take(8)) == crate::lines::join_nl(ls.take(7)) + nl + e);
    assert(ls.take(9).drop_last() =~= ls.take(8));
    assert(ls.take(9) =~= ls);
    assert(crate::lines::join_nl(ls) == crate::lines::join_nl(ls.take(8)) + nl + e);
    assert(crate::lines::join_nl(ls) + nl =~= crate::task::render_spec(t));
}

/// Law: the close rewrite is idempotent. Rewriting content a second time
/// changes nothing, provided no line of the content ends in a carriage
/// return that the first rewrite would have dropped.
pub proof fn lemma_close_idempotent(s: Seq<char>)
    requires
        forall|k: int|
            0 <= k < lines_spec(s).len() ==> crate::lines::strip_cr(#[trigger] lines_spec(s)[k])
                == lines_spec(s)[k],
    ensures
        close_content_spec(close_content_spec(s)) == close_content_spec(s),
{
    let ls = lines_spec(s);
    let cls = close_lines(ls);
    let once = close_content_spec(s);
    if ls.len() == 0 {
        assert(cls =~= Seq::<Seq<char>>::empty());
        assert(once =~= seq!['\n']);
        let e = Seq::<char>::empty();
        assert(seq!['\n'].drop_first() =~= e);
        assert(crate::lines::split_char(seq!['\n'], '\n') =~= seq![e] + crate::lines::split_char(
            e,
            '\n',
        ));
        assert(crate::lines::split_char(seq!['\n'], '\n') =~= seq![e, e]);
        assert(crate::lines::split_char(once, '\n').last() == e);
        assert(crate::lines::split_char(once, '\n').drop_last() =~= seq![e]);
        crate::lines::lemma_strip_pieces_index(seq![e]);
        assert(lines_spec(once) =~= seq![e]);
        assert(e != open_status_line());
        assert(close_lines(seq![e]) =~= seq![e]);
        assert(crate::lines::join_nl(seq![e]) == e);
        assert(close_content_spec(once) =~= once);
    } else {
        let bnd = front_matter_end(ls);
        crate::lines::lemma_lines_clean(s);
        assert(closed_status_line().last() == 'D');
        assert forall|p: int, i: int|
            0 <= p < cls.len() && 0 <= i < cls[p].len() implies #[trigger] cls[p][i] != '\n' by {
            if p < bnd && ls[p] == open_status_line() {
                assert(cls[p] == closed_status_line());
            } else {
                assert(cls[p] == ls[p]);
            }
        }
        assert forall|p: int| 0 <= p < cls.len() implies crate::lines::strip_cr(#[trigger] cls[p])
            == cls[p] by {
            if p < bnd && ls[p] == open_status_line() {
                assert(cls[p] == closed_status_line());
            } else {
                assert(cls[p] == ls[p]);
            }
        }
        crate::lines::lemma_lines_of_join(cls);
        assert(lines_spec(once) == cls);
        // The rewrite moves no delimiter, so the front matter ends where it
        // did.
        assert forall|p: int| 0 <= p < cls.len() implies (#[trigger] cls[p] == delim_line()) == (
        ls[p] == delim_line()) by {
            if p < bnd && ls[p] == open_status_line() {
                assert(cls[p] == closed_status_line());
            } else {
                assert(cls[p] == ls[p]);
            }
        }
        lemma_find_delim_from(ls, 1);
        lemma_find_delim_from(cls, 1);
        let bnd2 = front_matter_end(cls);
        assert(bnd2 == bnd) by {
            if bnd2 < bnd {
                assert(cls[bnd2] == delim_line());
                assert(ls[bnd2] == delim_line());
            }
            if bnd < bnd2 {
                assert(ls[bnd] == delim_line());
                assert(cls[bnd] == delim_line());
            }
        }
        assert(close_lines(cls) =~= cls) by {
            assert forall|p: int| 0 <= p < cls.len() implies close_lines(cls)[p] == cls[p] by {
                if p < bnd && ls[p] == open_status_line() {
                    assert(cls[p] == closed_status_line());
                    assert(cls[p] != open_status_line());
                } else {
                    assert(cls[p] == ls[p]);
                    if p < bnd {
                        assert(cls[p] != open_status_line());
                    }
                }
            }
        }
        assert(close_content_spec(once) =~= once);
    }
}

/// The tag names among command payload items: the remainders of the
/// `+`-prefixed items, with a bare `+` dropped silently.
pub open spec fn payload_tags(es: Seq<Seq<char>>) -> Seq<Seq<char>>
    decreases es.len(),
{
    if es.len() == 0 {
        Seq::empty()
    } else {
        let rest = payload_tags(es.drop_last());
        let e = es.last();
        if e.len() > 0 && e[0] == '+' {
            if e.len() > 1 {
                rest.push(e.skip(1))
            } else {
                rest
            }
        } else {
            rest
        }
    }
}

/// The title words among command payload items: everything not
/// `+`-prefixed, in order.
pub open spec fn payload_words(es: Seq<Seq<char>>) -> Seq<Seq<char>>
    decreases es.len(),
{
    if es.len() == 0 {
        Seq::empty()
    } else {
        let rest = payload_words(es.drop_last());
        let e = es.last();
        if e.len() > 0 && e[0] == '+' {
            rest
        } else {
            rest.push(e)
        }
    }
}

/// Words joined with single spaces.
pub open spec fn join_spaces(ws: Seq<Seq<char>>) -> Seq<char>
    decreases ws.len(),
{
    if ws.len() == 0 {
        Seq::empty()
    } else if ws.len() == 1 {
        ws[0]
    } else {
        join_spaces(ws.drop_last()) + seq![' '] + ws.last()
    }
}

/// Builds a new open task from command payload items and a priority: items
/// prefixed with `+` become tags (empty tag names are dropped), the rest
/// joins into the title, and a payload without any title word is refused.
pub fn build_task(payload: Vec<String>, priority: u8) -> (r: Option<Task>)
    ensures
        r is Some <==> payload_words(views_of(payload@)).len() > 0,
        r matches Some(t) ==> t@ == (TaskView {
            tags: payload_tags(views_of(payload@)),
            title: join_spaces(payload_words(views_of(payload@))),
            status: Status::Open,
            priority: priority,
        }),
{
    let ghost es = views_of(payload@);
    let mut words: Vec<String> = Vec::new();
    let mut tags: Vec<String> = Vec::new();
    let mut i: usize = 0;
    proof {
        assert(views_of(words@) =~= payload_words(es.take(0)));
        assert(views_of(tags@) =~= payload_tags(es.take(0)));
    }
    while i < payload.len()
        invariant
            0 <= i <= payload@.len(),
            es == views_of(payload@),
            payload@.len() == es.len(),
            views_of(words@) == payload_words(es.take(i as int)),
            views_of(tags@) == payload_tags(es.take(i as int)),
        decreases payload@.len() - i,
    {
        let item = payload[i].as_str();
        let ghost wbefore = words@;
        let ghost tbefore = tags@;
        let len = item.unicode_len();
        proof {
            assert(es[i as int] == item@);
            assert(es.take(i + 1).drop_last() =~= es.take(i as int));
            assert(es.take(i + 1).last() == es[i as int]);
        }
        if len > 0 && item.get_char(0) == '+' {
            if len > 1 {
                let tag = item.substring_char(1, len).to_owned();
                proof {
                    assert(tag@ =~= item@.skip(1));
                    assert(views_of(tbefore.push(tag)) =~= views_of(tbefore).push(item@.skip(1)));
                }
                tags.push(tag);
            }
        } else {
            let word = item.to_owned();
            proof {
                assert(views_of(wbefore.push(word)) =~= views_of(wbefore).push(item@));
            }
            words.push(word);
        }
        i = i + 1;
    }
    proof {
        assert(es.take(es.len() as int) =~= es);
    }
    if words.len() == 0 {
        return None;
    }
    let mut title = String::new();
    let ghost ws = views_of(words@);
    let mut k: usize = 0;
    proof {
        assert(title@ =~= join_spaces(ws.take(0)));
    }
    while k < words.len()
        invariant
            0 <= k <= words@.len(),
            ws == views_of(words@),
            title@ == join_spaces(ws.take(k as int)),
        decreases words@.len() - k,
    {
        if k > 0 {
            proof {
                reveal_strlit(" ");
            }
            title.append(" ");
        }
        title.append(words[k].as_str());
        proof {
            reveal_strlit(" ");
            assert(" "@ =~= seq![' ']);
            assert(ws.take(k + 1).drop_last() =~= ws.take(k as int));
            assert(ws.take(k + 1).last() == words@[k as int]@);
            if k == 0 {
                assert(join_spaces(ws.take(1)) == ws.take(1)[0]);
                assert(title@ =~= join_spaces(ws.take(1)));
            } else {
                assert(title@ =~= join_spaces(ws.take(k + 1)));
            }
        }
        k = k + 1;
    }
    proof {
        assert(ws.take(words@.len() as int) =~= ws);
    }
    Some(Task { tags, title, status: Status::Open, priority })
}

/// The mathematical image of a display row: one-based index into the
/// folder-sorted listing, folder name, task.
pub open spec fn display_view(p: (usize, String, Task)) -> (int, Seq<char>, TaskView) {
    (p.0 as int, p.1@, p.2@)
}

/// The images of a display listing.
pub open spec fn display_views(s: Seq<(usize, String, Task)>) -> Seq<(int, Seq<char>, TaskView)> {
    Seq::new(s.len(), |i: int| display_view(s[i]))
}

/// The rows a listing shows: every task indexed by its one-based position
/// in the folder-sorted listing, closed tasks kept only on request.
pub open spec fn display_candidates(ts: Seq<(String, Task)>, show_closed: bool) -> Seq<
    (int, Seq<char>, TaskView),
>
    decreases ts.len(),
{
    if ts.len() == 0 {
        Seq::empty()
    } else {
        let rest = display_candidates(ts.drop_last(), show_closed);
        let e = ts.last();
        if show_closed || e.1.status == Status::Open {
            rest.push((ts.len() as int, e.0@, e.1@))
        } else {
            rest
        }
    }
}

/// Orders a folder-sorted listing for display: indexes the tasks by their
/// one-based listing position, drops closed tasks unless they are asked
/// for, and sorts the rows by descending priority. The sort is stable:
/// rows of equal priority keep their ascending listing positions.
pub fn display_order(tasks: Vec<(String, Task)>, show_closed: bool) -> (r: Vec<
    (usize, String, Task),
>)
    ensures
        display_views(r@).to_multiset() == display_candidates(tasks@, show_closed).to_multiset(),
        forall|i: int, j: int|
            0 <= i < j < r@.len() ==> #[trigger] r@[i].2.priority >= #[trigger] r@[j].2.priority,
        forall|i: int, j: int|
            0 <= i < j < r@.len() && #[trigger] r@[i].2.priority == #[trigger] r@[j].2.priority
                ==> r@[i].0 < r@[j].0,
{
    broadcast use vstd::seq_lib::group_to_multiset_ensures;
    broadcast use vstd::multiset::group_multiset_axioms;

    let ghost orig = tasks@;
    let mut rest = tasks;
    let total = rest.len();
    let mut cand: Vec<(usize, String, Task)> = Vec::new();
    let mut k: usize = 0;
    proof {
        assert(display_views(cand@) =~= display_candidates(orig.take(0), show_closed));
        assert(rest@ =~= orig.skip(0));
    }
    while rest.len() > 0
        invariant
            0 <= k <= orig.len(),
            orig.len() == total,
            rest@ == orig.skip(k as int),
            display_views(cand@) == display_candidates(orig.take(k as int), show_closed),
            forall|i: int, j: int|
                0 <= i < j < cand@.len() ==> #[trigger] cand@[i].0 < #[trigger] cand@[j].0,
            forall|i: int| 0 <= i < cand@.len() ==> #[trigger] cand@[i].0 <= k,
        decreases rest@.len(),
    {
        let e = rest.remove(0);
        let ghost cbefore = cand@;
        proof {
            assert(orig.skip(k as int)[0] == orig[k as int]);
            assert(orig.skip(k as int).remove(0) =~= orig.skip(k + 1));
            assert(orig.take(k + 1).drop_last() =~= orig.take(k as int));
            assert(orig.take(k + 1).last() == orig[k as int]);
            assert(orig.take(k + 1).len() == k + 1);
        }
        let keep = show_closed || e.1.status == Status::Open;
        if keep {
            let row = (k + 1, e.0, e.1);
            proof {
                assert(display_views(cbefore.push(row)) =~= display_views(cbefore).push(
                    display_view(row),
                ));
            }
            cand.push(row);
        }
        k = k + 1;
    }
    proof {
        assert(orig.take(orig.len() as int) =~= orig);
    }
    // Sort the rows by descending priority.
    let mut pool = cand;
    let mut out: Vec<(usize, String, Task)> = Vec::new();
    let ghost all = display_candidates(orig, show_closed);
    proof {
        assert(display_views(out@) =~= Seq::<(int, Seq<char>, TaskView)>::empty());
        assert(display_views(out@).to_multiset().add(display_views(pool@).to_multiset())
            =~= display_views(pool@).to_multiset());
    }
    while pool.len() > 0
        invariant
            display_views(out@).to_multiset().add(display_views(pool@).to_multiset())
                == all.to_multiset(),
            forall|i: int, j: int|
                0 <= i < j < pool@.len() ==> #[trigger] pool@[i].0 < #[trigger] pool@[j].0,
            forall|i: int, j: int|
                0 <= i < j < out@.len() ==> #[trigger] out@[i].2.priority
                    >= #[trigger] out@[j].2.priority,
            forall|i: int, j: int|
                0 <= i < j < out@.len() && #[trigger] out@[i].2.priority
                    == #[trigger] out@[j].2.priority ==> out@[i].0 < out@[j].0,
            forall|i: int, j: int|
                0 <= i < out@.len() && 0 <= j < pool@.len() ==> #[trigger] out@[i].2.priority
                    > #[trigger] pool@[j].2.priority || (out@[i].2.priority == pool@[j].2.priority
                    && out@[i].0 < pool@[j].0),
        decreases pool@.len(),
    {
        // Pick the first row of maximal priority, which keeps rows of equal
        // priority in their listing order.
        let mut m: usize = 0;
        let mut k2: usize = 1;
        while k2 < pool.len()
            invariant
                0 <= m < k2 <= pool@.len(),
                pool@.len() > 0,
                forall|j: int|
                    0 <= j < m ==> #[trigger] pool@[j].2.priority < pool@[m as int].2.priority,
                forall|j: int|
                    m <= j < k2 ==> pool@[m as int].2.priority >= #[trigger] pool@[j].2.priority,
            decreases pool@.len() - k2,
        {
            if pool[k2].2.priority > pool[m].2.priority {
                m = k2;
            }
            k2 = k2 + 1;
        }
        let ghost pool_old = pool@;
        let ghost out_old = out@;
        let e = pool.remove(m);
        proof {
            display_views(pool_old).to_multiset_ensures();
            display_views(out_old).to_multiset_ensures();
            assert(display_views(pool_old)[m as int] == display_view(e));
            assert(display_views(pool@) =~= display_views(pool_old).remove(m as int));
            assert(display_views(pool_old).remove(m as int).to_multiset() =~= display_views(
                pool_old,
            ).to_multiset().remove(display_view(e)));
            assert(display_views(out_old.push(e)) =~= display_views(out_old).push(
                display_view(e),
            ));
            assert(display_views(pool_old).to_multiset().count(display_view(e)) > 0) by {
                assert(display_views(pool_old).contains(display_view(e)));
            }
            assert(display_views(out_old).push(display_view(e)).to_multiset().add(
                display_views(pool_old).to_multiset().remove(display_view(e)),
            ) =~= display_views(out_old).to_multiset().add(display_views(pool_old).to_multiset()));
            assert(forall|j: int|
                0 <= j < pool@.len() ==> pool@[j] == pool_old.remove(m as int)[j]);
            // Every row left behind either has lower priority or sits later
            // in the listing.
            assert forall|j: int| 0 <= j < pool@.len() implies e.2.priority
                > #[trigger] pool@[j].2.priority || (e.2.priority == pool@[j].2.priority && e.0
                < pool@[j].0) by {
                if j < m {
                    assert(pool@[j] == pool_old[j]);
                } else {
                    assert(pool@[j] == pool_old[j + 1]);
                }
            }
        }
        out.push(e);
    }
    proof {
        assert(display_views(pool@) =~= Seq::<(int, Seq<char>, TaskView)>::empty());
        assert(display_views(out@).to_multiset().add(
            Multiset::<(int, Seq<char>, TaskView)>::empty(),
        ) =~= display_views(out@).to_multiset());
    }
    out
}

} // verus!
