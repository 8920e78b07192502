//! The task record: status vocabulary, the markdown-with-header rendering,
//! and the parser back from file content.

use crate::lines::{
    lemma_split_char_no_sep, lemma_split_char_piece, lemma_strip_pieces_index, lines_spec,
    split_char, split_lines, split_on_char, strip_cr, views_of,
};
use crate::text::{
    dec_of, eq_ignore_case, find_key_sep, find_sep, is_digit_char, is_ws_char, lemma_dec_of_val,
    lemma_find_sep, lemma_trim_of_trimmed, parse_u8, parse_u8_spec, str_eq, str_eq_ignore_case,
    trim, trim_end_spec, trim_spec, trim_start_spec, u64_to_dec,
};
use vstd::prelude::*;

verus! {

/// Whether a task is open or closed.
#[derive(Debug, PartialEq, Eq, Clone, Copy, Structural)]
pub enum Status {
    Open,
    Closed,
}

/// Why a task file failed to parse.
#[derive(Debug, PartialEq, Eq, Clone, Copy, Structural)]
pub enum ParseError {
    MissingFrontMatterDelimiter,
    InvalidStatus,
    InvalidPriority,
    ExpectedTitleLine,
    MissingStatus,
    MissingPriority,
    MissingTitle,
}

/// An in-memory task record.
#[derive(Debug, PartialEq)]
pub struct Task {
    pub tags: Vec<String>,
    pub title: String,
    pub status: Status,
    pub priority: u8,
}

/// The mathematical image of a task.
pub ghost struct TaskView {
    pub tags: Seq<Seq<char>>,
    pub title: Seq<char>,
    pub status: Status,
    pub priority: u8,
}

impl View for Task {
    type V = TaskView;

    open spec fn view(&self) -> TaskView {
        TaskView {
            tags: views_of(self.tags@),
            title: self.title@,
            status: self.status,
            priority: self.priority,
        }
    }
}

/// The upper-case rendering of a status.
pub open spec fn status_str(st: Status) -> Seq<char> {
    match st {
        Status::Open => seq!['O', 'P', 'E', 'N'],
        Status::Closed => seq!['C', 'L', 'O', 'S', 'E', 'D'],
    }
}

impl Status {
    /// The upper-case text of this status.
    pub fn as_str(&self) -> (r: &'static str)
        ensures
            r@ == status_str(*self),
    {
        proof {
            reveal_strlit("OPEN");
            reveal_strlit("CLOSED");
        }
        match self {
            Status::Open => {
                proof {
                    assert("OPEN"@ =~= status_str(Status::Open));
                }
                "OPEN"
            },
            Status::Closed => {
                proof {
                    assert("CLOSED"@ =~= status_str(Status::Closed));
                }
                "CLOSED"
            },
        }
    }
}

/// A status token read case-insensitively, rejecting anything but the two
/// known words.
pub open spec fn parse_status_spec(v: Seq<char>) -> Option<Status> {
    if eq_ignore_case(v, seq!['O', 'P', 'E', 'N']) {
        Some(Status::Open)
    } else if eq_ignore_case(v, seq!['C', 'L', 'O', 'S', 'E', 'D']) {
        Some(Status::Closed)
    } else {
        None
    }
}

/// Parses a status token case-insensitively.
pub fn parse_status(v: &str) -> (r: Option<Status>)
    ensures
        r == parse_status_spec(v@),
{
    proof {
        reveal_strlit("OPEN");
        reveal_strlit("CLOSED");
        assert("OPEN"@ =~= seq!['O', 'P', 'E', 'N']);
        assert("CLOSED"@ =~= seq!['C', 'L', 'O', 'S', 'E', 'D']);
    }
    if str_eq_ignore_case(v, "OPEN") {
        Some(Status::Open)
    } else if str_eq_ignore_case(v, "CLOSED") {
        Some(Status::Closed)
    } else {
        None
    }
}

/// The tags joined with comma-space separators.
pub open spec fn join_tags(tags: Seq<Seq<char>>) -> Seq<char>
    decreases tags.len(),
{
    if tags.len() == 0 {
        Seq::empty()
    } else if tags.len() == 1 {
        tags[0]
    } else {
        join_tags(tags.drop_last()) + seq![',', ' '] + tags.last()
    }
}

/// The exact file rendering of a task: a front-matter block carrying
/// status, priority and tags between `---` delimiter lines, a blank line,
/// the `# `-prefixed title line, and trailing blank lines.
pub open spec fn render_spec(t: TaskView) -> Seq<char> {
    seq!['-', '-', '-', '\n', 's', 't', 'a', 't', 'u', 's', ':', ' '] + status_str(t.status)
        + seq!['\n', 'p', 'r', 'i', 'o', 'r', 'i', 't', 'y', ':', ' '] + dec_of(t.priority as int)
        + seq!['\n', 't', 'a', 'g', 's', ':', ' ', '['] + join_tags(t.tags) + seq![
        ']',
        '\n',
        '-',
        '-',
        '-',
        '\n',
        '\n',
        '#',
        ' ',
    ] + t.title + seq!['\n', '\n', '\n']
}

impl Task {
    /// Renders the task to its exact persisted file format.
    pub fn render(&self) -> (r: String)
        ensures
            r@ == render_spec(self@),
    {
        let mut s = String::new();
        proof {
            reveal_strlit("---\nstatus: ");
            reveal_strlit("\npriority: ");
            reveal_strlit("\ntags: [");
            reveal_strlit("]\n---\n\n# ");
            reveal_strlit("\n\n\n");
            reveal_strlit(", ");
        }
        s.append("---\nstatus: ");
        s.append(self.status.as_str());
        s.append("\npriority: ");
        let p = u64_to_dec(self.priority as u64);
        s.append(p.as_str());
        s.append("\ntags: [");
        let ghost mid = s@;
        let ghost vs = views_of(self.tags@);
        let mut i: usize = 0;
        proof {
            assert(s@ =~= mid + join_tags(vs.take(0)));
        }
        while i < self.tags.len()
            invariant
                0 <= i <= self.tags.len(),
                vs == views_of(self.tags@),
                s@ == mid + join_tags(vs.take(i as int)),
            decreases self.tags.len() - i,
        {
            if i > 0 {
                proof {
                    reveal_strlit(", ");
                }
                s.append(", ");
            }
            s.append(self.tags[i].as_str());
            proof {
                reveal_strlit(", ");
                assert(vs.take(i + 1).drop_last() =~= vs.take(i as int));
                assert(vs.take(i + 1).last() == self.tags@[i as int]@);
                if i == 0 {
                    assert(join_tags(vs.take(1)) == vs.take(1)[0]);
                    assert(s@ =~= mid + join_tags(vs.take(1)));
                } else {
                    assert(", "@ =~= seq![',', ' ']);
                    assert(s@ =~= mid + join_tags(vs.take(i + 1)));
                }
            }
            i = i + 1;
        }
        proof {
            assert(vs.take(self.tags@.len() as int) =~= vs);
        }
        s.append("]\n---\n\n# ");
        s.append(self.title.as_str());
        s.append("\n\n\n");
        proof {
            assert(s@ =~= render_spec(self@));
        }
        s
    }
}

/// Header fields gathered while scanning the front matter.
pub ghost struct Header {
    pub status: Option<Status>,
    pub priority: Option<u8>,
    pub tags: Option<Seq<Seq<char>>>,
}

/// The header state before any line was read.
pub open spec fn empty_header() -> Header {
    Header { status: None, priority: None, tags: None }
}

/// Every piece trimmed.
pub open spec fn trim_pieces(ps: Seq<Seq<char>>) -> Seq<Seq<char>>
    decreases ps.len(),
{
    if ps.len() == 0 {
        Seq::empty()
    } else {
        trim_pieces(ps.drop_last()).push(trim_spec(ps.last()))
    }
}

/// Tags read from a header value: trimmed, an optional `[...]` wrapping
/// removed, empty meaning no tags, otherwise comma-split with each element
/// trimmed.
pub open spec fn parse_tags_spec(v: Seq<char>) -> Seq<Seq<char>> {
    let tv = trim_spec(v);
    let cleaned = if tv.len() >= 2 && tv[0] == '[' && tv.last() == ']' {
        tv.subrange(1, tv.len() - 1)
    } else {
        tv
    };
    if cleaned.len() == 0 {
        Seq::empty()
    } else {
        trim_pieces(split_char(cleaned, ','))
    }
}

/// One front-matter line folded into the header state: lines without a
/// `": "` separator and unknown keys are ignored, recognized keys replace
/// their field or fail with their typed error.
pub open spec fn header_line_spec(line: Seq<char>, h: Header) -> Result<Header, ParseError> {
    match find_sep(line) {
        None => Ok(h),
        Some(i) => {
            let k = trim_spec(line.take(i));
            let v = line.skip(i + 2);
            if k == seq!['s', 't', 'a', 't', 'u', 's'] {
                match parse_status_spec(trim_spec(v)) {
                    Some(st) => Ok(Header { status: Some(st), priority: h.priority, tags: h.tags }),
                    None => Err(ParseError::InvalidStatus),
                }
            } else if k == seq!['p', 'r', 'i', 'o', 'r', 'i', 't', 'y'] {
                match parse_u8_spec(trim_spec(v)) {
                    Some(p) => Ok(Header { status: h.status, priority: Some(p), tags: h.tags }),
                    None => Err(ParseError::InvalidPriority),
                }
            } else if k == seq!['t', 'a', 'g', 's'] {
                Ok(Header { status: h.status, priority: h.priority, tags: Some(parse_tags_spec(v)) })
            } else {
                Ok(h)
            }
        },
    }
}

/// The front-matter lines from `j` on folded into the header state, up to
/// and including the closing `---` line; returns the state and the index of
/// the first line after the front matter.
pub open spec fn headers_spec(ls: Seq<Seq<char>>, j: int, h: Header) -> Result<
    (Header, int),
    ParseError,
>
    decreases ls.len() - j,
{
    if j < 0 || j >= ls.len() {
        Ok((h, j))
    } else if ls[j] == seq!['-', '-', '-'] {
        Ok((h, j + 1))
    } else {
        match header_line_spec(ls[j], h) {
            Ok(h2) => headers_spec(ls, j + 1, h2),
            Err(e) => Err(e),
        }
    }
}

/// The title found at or after line `j`: blank lines are skipped, the first
/// non-blank line must carry the `# ` heading prefix, and its remainder is
/// the title.
pub open spec fn title_scan_spec(ls: Seq<Seq<char>>, j: int) -> Result<
    Option<Seq<char>>,
    ParseError,
>
    decreases ls.len() - j,
{
    if j < 0 || j >= ls.len() {
        Ok(None)
    } else if trim_spec(ls[j]).len() == 0 {
        title_scan_spec(ls, j + 1)
    } else if ls[j].len() >= 2 && ls[j][0] == '#' && ls[j][1] == ' ' {
        Ok(Some(ls[j].skip(2)))
    } else {
        Err(ParseError::ExpectedTitleLine)
    }
}

/// What parsing a task file yields: the first line must be `---`, the
/// following lines up to the closing `---` fill the header, the first
/// non-blank line after it must be the `# ` title, and a missing title,
/// priority or status is reported in that order. Missing tags default to an
/// empty sequence.
pub open spec fn parse_spec(s: Seq<char>) -> Result<TaskView, ParseError> {
    let ls = lines_spec(s);
    if ls.len() == 0 || ls[0] != seq!['-', '-', '-'] {
        Err(ParseError::MissingFrontMatterDelimiter)
    } else {
        match headers_spec(ls, 1, empty_header()) {
            Err(e) => Err(e),
            Ok((h, j)) => match title_scan_spec(ls, j) {
                Err(e) => Err(e),
                Ok(topt) => {
                    if topt is None {
                        Err(ParseError::MissingTitle)
                    } else if h.priority is None {
                        Err(ParseError::MissingPriority)
                    } else if h.status is None {
                        Err(ParseError::MissingStatus)
                    } else {
                        Ok(
                            TaskView {
                                tags: if h.tags is Some {
                                    h.tags->0
                                } else {
                                    Seq::empty()
                                },
                                title: topt->0,
                                status: h.status->0,
                                priority: h.priority->0,
                            },
                        )
                    }
                },
            },
        }
    }
}

/// The header state a running scan has gathered so far.
pub open spec fn header_of(
    st: Option<Status>,
    pr: Option<u8>,
    tg: Option<Vec<String>>,
) -> Header {
    Header {
        status: st,
        priority: pr,
        tags: match tg {
            Some(v) => Some(views_of(v@)),
            None => None,
        },
    }
}

/// Reads a tags header value.
fn parse_tags_value(v: &str) -> (r: Vec<String>)
    ensures
        views_of(r@) == parse_tags_spec(v@),
{
    let tv = trim(v);
    let len = tv.unicode_len();
    let cleaned: &str = if len >= 2 && tv.get_char(0) == '[' && tv.get_char(len - 1) == ']' {
        proof {
            assert(tv@.subrange(1, len - 1) =~= trim_spec(v@).subrange(
                1,
                trim_spec(v@).len() - 1,
            ));
        }
        tv.substring_char(1, len - 1)
    } else {
        tv
    };
    let clen = cleaned.unicode_len();
    if clen == 0 {
        let r: Vec<String> = Vec::new();
        proof {
            assert(views_of(r@) =~= parse_tags_spec(v@));
        }
        return r;
    }
    let pieces = split_on_char(cleaned, ',');
    let ghost pv = split_char(cleaned@, ',');
    let mut r: Vec<String> = Vec::new();
    let mut i: usize = 0;
    proof {
        assert(views_of(r@) =~= trim_pieces(pv.take(0)));
    }
    while i < pieces.len()
        invariant
            0 <= i <= pieces.len(),
            views_of(pieces@) == pv,
            pieces@.len() == pv.len(),
            views_of(r@) =~= trim_pieces(pv.take(i as int)),
        decreases pieces.len() - i,
    {
        let piece = trim(pieces[i].as_str()).to_owned();
        proof {
            assert(pv.take(i + 1).drop_last() =~= pv.take(i as int));
            assert(pv.take(i + 1).last() == pv[i as int]);
            assert(pieces@[i as int]@ == pv[i as int]);
            assert(views_of(r@.push(piece)) =~= views_of(r@).push(trim_spec(pv[i as int])));
        }
        r.push(piece);
        i = i + 1;
    }
    proof {
        assert(pv.take(pv.len() as int) =~= pv);
        assert(views_of(r@) =~= parse_tags_spec(v@));
    }
    r
}

/// Scans for the title line at or after line `j`.
fn scan_title(ls: &Vec<String>, j: usize) -> (r: Result<Option<String>, ParseError>)
    requires
        j <= ls@.len(),
    ensures
        r matches Ok(Some(t)) ==> title_scan_spec(views_of(ls@), j as int) == Ok::<
            Option<Seq<char>>,
            ParseError,
        >(Some(t@)),
        r matches Ok(None::<String>) ==> title_scan_spec(views_of(ls@), j as int) == Ok::<
            Option<Seq<char>>,
            ParseError,
        >(None),
        r matches Err(e) ==> title_scan_spec(views_of(ls@), j as int) == Err::<
            Option<Seq<char>>,
            ParseError,
        >(e),
    decreases ls@.len() - j,
{
    if j == ls.len() {
        Ok(None)
    } else {
        let line = ls[j].as_str();
        proof {
            assert(views_of(ls@)[j as int] == line@);
        }
        let t = trim(line);
        if t.unicode_len() == 0 {
            scan_title(ls, j + 1)
        } else {
            let llen = line.unicode_len();
            if llen >= 2 && line.get_char(0) == '#' && line.get_char(1) == ' ' {
                let title = line.substring_char(2, llen).to_owned();
                proof {
                    assert(title@ =~= line@.skip(2));
                }
                Ok(Some(title))
            } else {
                Err(ParseError::ExpectedTitleLine)
            }
        }
    }
}

impl Task {
    /// Parses a task file back into a task record.
    pub fn parse(s: &str) -> (r: Result<Task, ParseError>)
        ensures
            r matches Ok(t) ==> parse_spec(s@) == Ok::<TaskView, ParseError>(t@),
            r matches Err(e) ==> parse_spec(s@) == Err::<TaskView, ParseError>(e),
    {
        let ls = split_lines(s);
        let ghost lsv = lines_spec(s@);
        proof {
            reveal_strlit("---");
            assert("---"@ =~= seq!['-', '-', '-']);
        }
        if ls.len() == 0 || !str_eq(ls[0].as_str(), "---") {
            proof {
                if ls@.len() > 0 {
                    assert(views_of(ls@)[0] == ls@[0]@);
                }
            }
            return Err(ParseError::MissingFrontMatterDelimiter);
        }
        proof {
            assert(views_of(ls@)[0] == ls@[0]@);
        }
        let mut status: Option<Status> = None;
        let mut priority: Option<u8> = None;
        let mut tags: Option<Vec<String>> = None;
        let mut j: usize = 1;
        let mut closed = false;
        while j < ls.len() && !closed
            invariant
                1 <= j <= ls@.len(),
                views_of(ls@) == lsv,
                lsv == lines_spec(s@),
                lsv.len() > 0,
                lsv[0] == seq!['-', '-', '-'],
                closed ==> headers_spec(lsv, 1, empty_header()) == Ok::<
                    (Header, int),
                    ParseError,
                >((header_of(status, priority, tags), j as int)),
                !closed ==> headers_spec(lsv, 1, empty_header()) == headers_spec(
                    lsv,
                    j as int,
                    header_of(status, priority, tags),
                ),
            decreases ls@.len() - j + (if closed {
                0int
            } else {
                1int
            }),
        {
            let line = ls[j].as_str();
            proof {
                reveal_strlit("---");
                assert("---"@ =~= seq!['-', '-', '-']);
                assert(lsv[j as int] == line@);
            }
            if str_eq(line, "---") {
                proof {
                    assert(lsv[j as int] == seq!['-', '-', '-']);
                }
                closed = true;
                j = j + 1;
                continue ;
            }
            proof {
                assert(lsv[j as int] != seq!['-', '-', '-']);
            }
            let ghost hbefore = header_of(status, priority, tags);
            match find_key_sep(line) {
                None => {
                    proof {
                        assert(header_line_spec(line@, hbefore) == Ok::<Header, ParseError>(
                            hbefore,
                        ));
                    }
                },
                Some(i) => {
                    proof {
                        lemma_find_sep(line@);
                    }
                    let llen = line.unicode_len();
                    let k = trim(line.substring_char(0, i));
                    let v = line.substring_char(i + 2, llen);
                    proof {
                        reveal_strlit("status");
                        reveal_strlit("priority");
                        reveal_strlit("tags");
                        assert("status"@ =~= seq!['s', 't', 'a', 't', 'u', 's']);
                        assert("priority"@ =~= seq!['p', 'r', 'i', 'o', 'r', 'i', 't', 'y']);
                        assert("tags"@ =~= seq!['t', 'a', 'g', 's']);
                        assert(line@.subrange(0, i as int) =~= line@.take(i as int));
                        assert(v@ =~= line@.skip(i + 2));
                    }
                    if str_eq(k, "status") {
                        match parse_status(trim(v)) {
                            Some(st) => {
                                status = Some(st);
                                proof {
                                    assert(header_line_spec(line@, hbefore) == Ok::<
                                        Header,
                                        ParseError,
                                    >(header_of(status, priority, tags)));
                                }
                            },
                            None => {
                                proof {
                                    assert(header_line_spec(line@, hbefore) == Err::<
                                        Header,
                                        ParseError,
                                    >(ParseError::InvalidStatus));
                                    assert(headers_spec(lsv, j as int, hbefore) == Err::<
                                        (Header, int),
                                        ParseError,
                                    >(ParseError::InvalidStatus));
                                }
                                return Err(ParseError::InvalidStatus);
                            },
                        }
                    } else if str_eq(k, "priority") {
                        match parse_u8(trim(v)) {
                            Some(p) => {
                                priority = Some(p);
                                proof {
                                    assert(header_line_spec(line@, hbefore) == Ok::<
                                        Header,
                                        ParseError,
                                    >(header_of(status, priority, tags)));
                                }
                            },
                            None => {
                                proof {
                                    assert(header_line_spec(line@, hbefore) == Err::<
                                        Header,
                                        ParseError,
                                    >(ParseError::InvalidPriority));
                                    assert(headers_spec(lsv, j as int, hbefore) == Err::<
                                        (Header, int),
                                        ParseError,
                                    >(ParseError::InvalidPriority));
                                }
                                return Err(ParseError::InvalidPriority);
                            },
                        }
                    } else if str_eq(k, "tags") {
                        tags = Some(parse_tags_value(v));
                        proof {
                            assert(header_line_spec(line@, hbefore) == Ok::<Header, ParseError>(
                                header_of(status, priority, tags),
                            ));
                        }
                    } else {
                        proof {
                            assert(header_line_spec(line@, hbefore) == Ok::<Header, ParseError>(
                                hbefore,
                            ));
                        }
                    }
                },
            }
            proof {
                assert(header_line_spec(lsv[j as int], hbefore) == Ok::<Header, ParseError>(
                    header_of(status, priority, tags),
                ));
                assert(headers_spec(lsv, j as int, hbefore) == headers_spec(
                    lsv,
                    j + 1,
                    header_of(status, priority, tags),
                ));
            }
            j = j + 1;
        }
        let ghost hfinal = header_of(status, priority, tags);
        proof {
            assert(headers_spec(lsv, 1, empty_header()) == Ok::<(Header, int), ParseError>(
                (hfinal, j as int),
            ));
        }
        let title_res = scan_title(&ls, j);
        let title = match title_res {
            Ok(Some(t)) => t,
            Ok(None) => {
                return Err(ParseError::MissingTitle);
            },
            Err(e) => {
                return Err(e);
            },
        };
        let priority = match priority {
            Some(p) => p,
            None => {
                return Err(ParseError::MissingPriority);
            },
        };
        let status = match status {
            Some(st) => st,
            None => {
                return Err(ParseError::MissingStatus);
            },
        };
        let ghost had_tags = tags is Some;
        let tags = match tags {
            Some(tg) => tg,
            None => Vec::new(),
        };
        proof {
            if !had_tags {
                assert(views_of(tags@) =~= Seq::<Seq<char>>::empty());
            }
        }
        let task = Task { tags, title, status, priority };
        Ok(task)
    }
}

/// A tag that survives rendering and parsing unchanged: non-empty, no
/// commas or line breaks, and no whitespace at either end.
pub open spec fn valid_tag(g: Seq<char>) -> bool {
    &&& g.len() > 0
    &&& !is_ws_char(g[0])
    &&& !is_ws_char(g.last())
    &&& forall|i: int| 0 <= i < g.len() ==> #[trigger] g[i] != ',' && g[i] != '\n' && g[i] != '\r'
}

/// A well-formed task value: a non-empty single-line title and well-formed
/// tags.
pub open spec fn valid_task(t: TaskView) -> bool {
    &&& t.title.len() > 0
    &&& forall|i: int|
        0 <= i < t.title.len() ==> #[trigger] t.title[i] != '\n' && t.title[i] != '\r'
    &&& forall|j: int| 0 <= j < t.tags.len() ==> valid_tag(#[trigger] t.tags[j])
}

/// Joined well-formed tags contain no line breaks.
proof fn lemma_join_tags_chars(tags: Seq<Seq<char>>)
    requires
        forall|j: int| 0 <= j < tags.len() ==> valid_tag(#[trigger] tags[j]),
    ensures
        forall|i: int|
            0 <= i < join_tags(tags).len() ==> #[trigger] join_tags(tags)[i] != '\n' && join_tags(
                tags,
            )[i] != '\r',
    decreases tags.len(),
{
    if tags.len() == 0 {
    } else if tags.len() == 1 {
        assert(tags[0] == tags.last());
        assert(valid_tag(tags[0]));
        assert(join_tags(tags) == tags[0]);
    } else {
        let front = tags.drop_last();
        let tl = tags.last();
        lemma_join_tags_chars(front);
        assert(forall|j: int| 0 <= j < front.len() ==> front[j] == tags[j]);
        assert(valid_tag(tl));
        let jf = join_tags(front);
        let whole = join_tags(tags);
        assert(whole == jf + seq![',', ' '] + tl);
        assert forall|i: int| 0 <= i < whole.len() implies #[trigger] whole[i] != '\n' && whole[i]
            != '\r' by {
            if i < jf.len() {
                assert(whole[i] == jf[i]);
            } else if i < jf.len() + 2 {
                assert(whole[i] == ',' || whole[i] == ' ');
            } else {
                assert(whole[i] == tl[i - jf.len() - 2]);
            }
        }
    }
}

/// Trimming keeps a sequence whose head is not whitespace non-empty.
proof fn lemma_trim_end_keeps_head(s: Seq<char>)
    requires
        s.len() > 0,
        !is_ws_char(s[0]),
    ensures
        trim_end_spec(s).len() > 0,
        trim_end_spec(s)[0] == s[0],
    decreases s.len(),
{
    if is_ws_char(s.last()) {
        lemma_trim_end_keeps_head(s.drop_last());
    }
}

/// A single leading space is trimmed away from a trim-stable sequence.
proof fn lemma_trim_space_prefix(g: Seq<char>)
    requires
        g.len() > 0,
        !is_ws_char(g[0]),
        !is_ws_char(g.last()),
    ensures
        trim_spec(seq![' '] + g) == g,
{
    let s = seq![' '] + g;
    assert(s[0] == ' ');
    assert(s.drop_first() =~= g);
    assert(trim_start_spec(s) == trim_start_spec(g));
    assert(trim_start_spec(g) == g);
    lemma_trim_of_trimmed(g);
}

/// Rendered well-formed tags parse back to exactly those tags.
proof fn lemma_tags_round_trip(tags: Seq<Seq<char>>)
    requires
        tags.len() > 0,
        forall|j: int| 0 <= j < tags.len() ==> valid_tag(#[trigger] tags[j]),
    ensures
        trim_pieces(split_char(join_tags(tags), ',')) == tags,
    decreases tags.len(),
{
    if tags.len() == 1 {
        let g = tags[0];
        assert(g == tags.last());
        assert(join_tags(tags) == g);
        lemma_split_char_no_sep(g, ',');
        assert(seq![g].drop_last() =~= Seq::<Seq<char>>::empty());
        assert(trim_pieces(Seq::<Seq<char>>::empty()) =~= Seq::<Seq<char>>::empty());
        lemma_trim_of_trimmed(g);
        assert(trim_pieces(seq![g]) == trim_pieces(seq![g].drop_last()).push(
            trim_spec(seq![g].last()),
        ));
        assert(trim_pieces(split_char(g, ',')) =~= tags);
    } else {
        let front = tags.drop_last();
        let tl = tags.last();
        assert(forall|j: int| 0 <= j < front.len() ==> front[j] == tags[j]);
        lemma_tags_round_trip(front);
        let a = join_tags(front);
        let suffix = seq![' '] + tl;
        assert(join_tags(tags) =~= a + (seq![','] + suffix));
        crate::lines::lemma_split_char_len(a, ',');
        // The tail of the join splits into an empty fused piece and the
        // space-prefixed last tag.
        assert(forall|i: int| 0 <= i < suffix.len() ==> suffix[i] != ',');
        lemma_split_char_no_sep(suffix, ',');
        let y = seq![','] + suffix;
        assert(y[0] == ',');
        assert(y.drop_first() =~= suffix);
        assert(split_char(y, ',') =~= seq![Seq::<char>::empty()] + seq![suffix]);
        crate::lines::lemma_split_char_concat(a, y, ',');
        let sa = split_char(a, ',');
        assert(split_char(y, ',')[0] =~= Seq::<char>::empty());
        assert(sa.last() + Seq::<char>::empty() =~= sa.last());
        assert(split_char(y, ',').drop_first() =~= seq![suffix]);
        assert(split_char(a + y, ',') =~= sa.drop_last() + seq![sa.last()] + seq![suffix]);
        assert(sa.drop_last() + seq![sa.last()] =~= sa);
        assert(split_char(join_tags(tags), ',') =~= sa + seq![suffix]);
        let whole = sa + seq![suffix];
        assert(whole.drop_last() =~= sa);
        assert(whole.last() == suffix);
        assert(trim_pieces(whole) == trim_pieces(sa).push(trim_spec(suffix)));
        assert(tl == tags[tags.len() - 1]);
        lemma_trim_space_prefix(tl);
        assert(trim_pieces(whole) =~= tags);
    }
}

/// The exact lines a rendered task file splits into.
#[verifier::rlimit(100)]
pub proof fn lemma_lines_of_render(t: TaskView)
    requires
        valid_task(t),
    ensures
        lines_spec(render_spec(t)) == seq![
            seq!['-', '-', '-'],
            seq!['s', 't', 'a', 't', 'u', 's', ':', ' '] + status_str(t.status),
            seq!['p', 'r', 'i', 'o', 'r', 'i', 't', 'y', ':', ' '] + dec_of(t.priority as int),
            seq!['t', 'a', 'g', 's', ':', ' ', '['] + join_tags(t.tags) + seq![']'],
            seq!['-', '-', '-'],
            Seq::<char>::empty(),
            seq!['#', ' '] + t.title,
            Seq::<char>::empty(),
            Seq::<char>::empty(),
        ],
{
    let l1 = seq!['-', '-', '-'];
    let l2 = seq!['s', 't', 'a', 't', 'u', 's', ':', ' '] + status_str(t.status);
    let l3 = seq!['p', 'r', 'i', 'o', 'r', 'i', 't', 'y', ':', ' '] + dec_of(t.priority as int);
    let l4 = seq!['t', 'a', 'g', 's', ':', ' ', '['] + join_tags(t.tags) + seq![']'];
    let l7 = seq!['#', ' '] + t.title;
    let e = Seq::<char>::empty();
    let nl = seq!['\n'];
    lemma_dec_of_val(t.priority as int);
    lemma_join_tags_chars(t.tags);
    let rest8 = nl + nl;
    let rest7 = l7 + nl + rest8;
    let rest6 = e + nl + rest7;
    let rest5 = l1 + nl + rest6;
    let rest4 = l4 + nl + rest5;
    let rest3 = l3 + nl + rest4;
    let rest2 = l2 + nl + rest3;
    assert(render_spec(t) =~= l1 + nl + rest2);
    lemma_split_char_piece(l1, rest2, '\n');
    assert(forall|i: int| 0 <= i < l2.len() ==> l2[i] != '\n');
    lemma_split_char_piece(l2, rest3, '\n');
    assert(forall|i: int| 0 <= i < l3.len() ==> l3[i] != '\n');
    lemma_split_char_piece(l3, rest4, '\n');
    assert(forall|i: int| 0 <= i < l4.len() ==> l4[i] != '\n');
    lemma_split_char_piece(l4, rest5, '\n');
    lemma_split_char_piece(l1, rest6, '\n');
    lemma_split_char_piece(e, rest7, '\n');
    assert(forall|i: int| 0 <= i < l7.len() ==> l7[i] != '\n');
    lemma_split_char_piece(l7, rest8, '\n');
    assert(rest8[0] == '\n');
    assert(rest8.drop_first() =~= nl);
    assert(nl[0] == '\n');
    assert(nl.drop_first() =~= e);
    assert(split_char(e, '\n') =~= seq![e]);
    assert(split_char(nl, '\n') =~= seq![e] + seq![e]);
    assert(split_char(rest8, '\n') =~= seq![e] + (seq![e] + seq![e]));
    let ps = split_char(render_spec(t), '\n');
    assert(ps =~= seq![l1] + (seq![l2] + (seq![l3] + (seq![l4] + (seq![l1] + (seq![e] + (seq![l7]
        + (seq![e] + (seq![e] + seq![e])))))))));
    assert(ps =~= seq![l1, l2, l3, l4, l1, e, l7, e, e, e]);
    assert(ps.last() == e);
    assert(ps.drop_last() =~= seq![l1, l2, l3, l4, l1, e, l7, e, e]);
    lemma_strip_pieces_index(seq![l1, l2, l3, l4, l1, e, l7, e, e]);
    assert(l2.last() == status_str(t.status).last());
    assert(strip_cr(l1) == l1 && strip_cr(l2) == l2 && strip_cr(l3) == l3 && strip_cr(l4) == l4
        && strip_cr(e) == e && strip_cr(l7) == l7);
    assert(lines_spec(render_spec(t)) =~= seq![l1, l2, l3, l4, l1, e, l7, e, e]);
}

/// Law: rendering then parsing returns any well-formed task unchanged, with
/// title, status, priority and tags all preserved exactly.
#[verifier::rlimit(100)]
pub proof fn lemma_render_parse_round_trip(t: TaskView)
    requires
        valid_task(t),
    ensures
        parse_spec(render_spec(t)) == Ok::<TaskView, ParseError>(t),
{
    let ls = lines_spec(render_spec(t));
    lemma_lines_of_render(t);
    let l1 = seq!['-', '-', '-'];
    let l2 = seq!['s', 't', 'a', 't', 'u', 's', ':', ' '] + status_str(t.status);
    let l3 = seq!['p', 'r', 'i', 'o', 'r', 'i', 't', 'y', ':', ' '] + dec_of(t.priority as int);
    let l4 = seq!['t', 'a', 'g', 's', ':', ' ', '['] + join_tags(t.tags) + seq![']'];
    let l7 = seq!['#', ' '] + t.title;
    let e = Seq::<char>::empty();
    assert(ls[0] == l1 && ls[1] == l2 && ls[2] == l3 && ls[3] == l4 && ls[4] == l1 && ls[5] == e
        && ls[6] == l7 && ls[7] == e && ls[8] == e);
    lemma_dec_of_val(t.priority as int);
    let h0 = empty_header();
    // The status line.
    assert(l2[6] == ':' && l2[7] == ' ');
    lemma_find_sep(l2);
    assert(find_sep(l2) == Some(6int)) by {
        match find_sep(l2) {
            Some(i) => {
                if i < 6 {
                    assert(l2[i] != ':');
                } else if i > 6 {
                    assert(!(l2[6] == ':' && l2[7] == ' '));
                }
            },
            None => {
                assert(!(l2[6] == ':' && l2[7] == ' '));
            },
        }
    }
    let key_status = seq!['s', 't', 'a', 't', 'u', 's'];
    assert(l2.take(6) =~= key_status);
    lemma_trim_of_trimmed(key_status);
    let sv = status_str(t.status);
    assert(l2.skip(8) =~= sv);
    lemma_trim_of_trimmed(sv);
    assert(parse_status_spec(sv) == Some(t.status)) by {
        match t.status {
            Status::Open => {
                assert(eq_ignore_case(sv, seq!['O', 'P', 'E', 'N']));
            },
            Status::Closed => {
                assert(!eq_ignore_case(sv, seq!['O', 'P', 'E', 'N']));
                assert(eq_ignore_case(sv, seq!['C', 'L', 'O', 'S', 'E', 'D']));
            },
        }
    }
    let h1 = Header { status: Some(t.status), priority: None, tags: None };
    assert(header_line_spec(l2, h0) == Ok::<Header, ParseError>(h1));
    // The priority line.
    let dv = dec_of(t.priority as int);
    assert(l3[8] == ':' && l3[9] == ' ');
    lemma_find_sep(l3);
    assert(find_sep(l3) == Some(8int)) by {
        match find_sep(l3) {
            Some(i) => {
                if i < 8 {
                    assert(l3[i] != ':');
                } else if i > 8 {
                    assert(!(l3[8] == ':' && l3[9] == ' '));
                }
            },
            None => {
                assert(!(l3[8] == ':' && l3[9] == ' '));
            },
        }
    }
    let key_priority = seq!['p', 'r', 'i', 'o', 'r', 'i', 't', 'y'];
    assert(l3.take(8) =~= key_priority);
    lemma_trim_of_trimmed(key_priority);
    assert(l3.skip(10) =~= dv);
    assert(is_digit_char(dv[0]) && is_digit_char(dv.last()));
    assert(!is_ws_char(dv[0]) && !is_ws_char(dv.last()));
    lemma_trim_of_trimmed(dv);
    assert(dv[0] != '+');
    assert(parse_u8_spec(dv) == Some(t.priority));
    let h2 = Header { status: Some(t.status), priority: Some(t.priority), tags: None };
    assert(header_line_spec(l3, h1) == Ok::<Header, ParseError>(h2));
    // The tags line.
    lemma_join_tags_chars(t.tags);
    let jt = join_tags(t.tags);
    assert(l4[4] == ':' && l4[5] == ' ');
    lemma_find_sep(l4);
    assert(find_sep(l4) == Some(4int)) by {
        match find_sep(l4) {
            Some(i) => {
                if i < 4 {
                    assert(l4[i] != ':');
                } else if i > 4 {
                    assert(!(l4[4] == ':' && l4[5] == ' '));
                }
            },
            None => {
                assert(!(l4[4] == ':' && l4[5] == ' '));
            },
        }
    }
    let key_tags = seq!['t', 'a', 'g', 's'];
    assert(l4.take(4) =~= key_tags);
    lemma_trim_of_trimmed(key_tags);
    let tv = seq!['['] + jt + seq![']'];
    assert(l4.skip(6) =~= tv);
    assert(tv[0] == '[' && tv.last() == ']');
    lemma_trim_of_trimmed(tv);
    assert(parse_tags_spec(tv) == t.tags) by {
        assert(tv.len() >= 2);
        assert(tv.subrange(1, tv.len() - 1) =~= jt);
        if t.tags.len() == 0 {
            assert(jt.len() == 0);
            assert(parse_tags_spec(tv) =~= t.tags);
        } else {
            assert(jt.len() > 0) by {
                if t.tags.len() == 1 {
                    assert(jt == t.tags[0]);
                    assert(valid_tag(t.tags[0]));
                }
            }
            lemma_tags_round_trip(t.tags);
        }
    }
    let h3 = Header {
        status: Some(t.status),
        priority: Some(t.priority),
        tags: Some(t.tags),
    };
    assert(header_line_spec(l4, h2) == Ok::<Header, ParseError>(h3));
    // Walk the front matter.
    assert(l2 != l1 && l3 != l1 && l4 != l1);
    assert(headers_spec(ls, 1, h0) == headers_spec(ls, 2, h1));
    assert(headers_spec(ls, 2, h1) == headers_spec(ls, 3, h2));
    assert(headers_spec(ls, 3, h2) == headers_spec(ls, 4, h3));
    assert(headers_spec(ls, 4, h3) == Ok::<(Header, int), ParseError>((h3, 5)));
    // Find the title.
    assert(trim_spec(e).len() == 0);
    assert(title_scan_spec(ls, 5) == title_scan_spec(ls, 6));
    assert(l7[0] == '#');
    assert(!is_ws_char(l7[0]));
    assert(trim_start_spec(l7) == l7);
    lemma_trim_end_keeps_head(l7);
    assert(trim_spec(l7).len() > 0);
    assert(l7.skip(2) =~= t.title);
    assert(title_scan_spec(ls, 6) == Ok::<Option<Seq<char>>, ParseError>(Some(t.title)));
    assert(parse_spec(render_spec(t)) == Ok::<TaskView, ParseError>(
        TaskView { tags: t.tags, title: t.title, status: t.status, priority: t.priority },
    ));
    assert(TaskView { tags: t.tags, title: t.title, status: t.status, priority: t.priority }
        == t);
}

} // verus!
