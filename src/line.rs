//! Lines of a hosts file: an optional record and an optional comment.
use crate::address::IpAddr;
use crate::chars::{
    char_from, chars_of, find_char, trim_bounds, trim_end, trim_end_bound, trim_start,
};
use crate::data_line::{parse_data, record_text, DataError, DataLine, DataParseError};
use crate::text_order::string_texts;
use vstd::prelude::*;

verus! {

/// A line as the contracts speak of it: its record and its comment.
pub type LineView = (Option<(IpAddr, Seq<Seq<char>>)>, Option<Seq<char>>);

/// What a raw line stands for. The comment is what follows the first `#`,
/// without its leading white space; the data is what precedes it (or the
/// whole line), without its trailing white space. Empty data is no record;
/// other data must parse as a record, or the whole line is refused.
pub open spec fn parse_line(s: Seq<char>) -> Result<LineView, DataError> {
    let (data, comment) = match char_from(s, '#', 0) {
        Some(i) => (s.take(i), Some(trim_start(s.skip(i + 1)))),
        None => (s, None),
    };
    let d = trim_end(data);
    if d.len() == 0 {
        Ok((None, comment))
    } else {
        match parse_data(d) {
            Ok(r) => Ok((Some(r), comment)),
            Err(e) => Err(e),
        }
    }
}

/// How a line is written: the record, then `  # ` and the comment; or `# `
/// and the comment alone; or the record alone; or nothing.
pub open spec fn line_text(l: LineView) -> Seq<char> {
    match (l.0, l.1) {
        (Some(d), Some(c)) => record_text(d) + seq![' ', ' ', '#', ' '] + c,
        (None, Some(c)) => seq!['#', ' '] + c,
        (Some(d), None) => record_text(d),
        (None, None) => Seq::empty(),
    }
}

/// A line of a hosts file.
#[derive(Clone, Debug, PartialEq, Eq)]
pub struct Line {
    data: Option<DataLine>,
    comment: Option<String>,
}

pub open spec fn opt_record_view(d: Option<DataLine>) -> Option<(IpAddr, Seq<Seq<char>>)> {
    match d {
        Some(x) => Some(x@),
        None => None,
    }
}

pub open spec fn opt_text_view(c: Option<String>) -> Option<Seq<char>> {
    match c {
        Some(x) => Some(x@),
        None => None,
    }
}

impl View for Line {
    type V = LineView;

    closed spec fn view(&self) -> LineView {
        (opt_record_view(self.data), opt_text_view(self.comment))
    }
}

impl Line {
    pub closed spec fn wf(&self) -> bool {
        match self.data {
            Some(d) => d.wf(),
            None => true,
        }
    }

    /// A line with neither record nor comment.
    pub fn empty() -> (r: Line)
        ensures
            r@ == (None::<(IpAddr, Seq<Seq<char>>)>, None::<Seq<char>>),
            r.wf(),
    {
        Line { data: None, comment: None }
    }

    /// A line with a record and no comment.
    pub fn from_data(data: DataLine) -> (r: Line)
        requires
            data.wf(),
        ensures
            r@ == (Some(data@), None::<Seq<char>>),
            r.wf(),
    {
        Line { data: Some(data), comment: None }
    }

    /// A line with a comment and no record.
    pub fn from_comment(comment: &str) -> (r: Line)
        ensures
            r@ == (None::<(IpAddr, Seq<Seq<char>>)>, Some(comment@)),
            r.wf(),
    {
        Line { data: None, comment: Some(comment.to_owned()) }
    }

    /// A line with a record and a comment.
    pub fn from_raw(data: DataLine, comment: &str) -> (r: Line)
        requires
            data.wf(),
        ensures
            r@ == (Some(data@), Some(comment@)),
            r.wf(),
    {
        Line { data: Some(data), comment: Some(comment.to_owned()) }
    }

    /// Parses a raw line, without its line terminator.
    pub fn new(line: &str) -> (r: Result<Line, DataParseError>)
        ensures
            match r {
                Ok(l) => parse_line(line@) == Ok::<_, DataError>(l@) && l.wf(),
                Err(e) => parse_line(line@) == Err::<LineView, _>(e@),
            },
    {
        let v = chars_of(line);
        let n = v.len();
        let (comment, end) = match find_char(&v, '#') {
            Some(i) => {
                let (a, _) = trim_bounds(&v, i + 1, n);
                assert(v@.skip(i + 1) =~= v@.subrange(i + 1, n as int));
                let c = line.substring_char(a, n).to_owned();
                assert(c@ =~= v@.subrange(a as int, n as int));
                assert(c@ == trim_start(line@.skip(i + 1)));
                (Some(c), i)
            },
            None => (None, n),
        };
        assert(opt_text_view(comment) == match char_from(line@, '#', 0) {
            Some(i) => Some(trim_start(line@.skip(i + 1))),
            None => None::<Seq<char>>,
        });
        assert(v@.take(end as int) == match char_from(line@, '#', 0) {
            Some(i) => line@.take(i),
            None => line@,
        }) by {
            assert(v@.take(n as int) =~= v@);
        }
        let e = trim_end_bound(&v, 0, end);
        assert(v@.take(end as int) =~= v@.subrange(0, end as int));
        if e == 0 {
            assert(trim_end(v@.take(end as int)).len() == 0);
            return Ok(Line { data: None, comment });
        }
        let data_text = line.substring_char(0, e);
        assert(data_text@ =~= v@.subrange(0, e as int));
        match DataLine::parse(data_text) {
            Ok(d) => Ok(Line { data: Some(d), comment }),
            Err(err) => Err(err),
        }
    }

    /// The address of the record, if any.
    pub fn ip(&self) -> (r: Option<IpAddr>)
        ensures
            r == match self@.0 {
                Some(d) => Some(d.0),
                None => None::<IpAddr>,
            },
    {
        match &self.data {
            Some(d) => Some(d.ip()),
            None => None,
        }
    }

    /// The aliases of the record; none without a record.
    pub fn hosts(&self) -> (r: Vec<String>)
        ensures
            string_texts(r@) == match self@.0 {
                Some(d) => d.1,
                None => Seq::<Seq<char>>::empty(),
            },
    {
        match &self.data {
            Some(d) => {
                let hs = d.hosts();
                let mut out: Vec<String> = Vec::new();
                let mut i: usize = 0;
                while i < hs.len()
                    invariant
                        i <= hs@.len(),
                        string_texts(out@) == string_texts(hs@).take(i as int),
                    decreases hs@.len() - i,
                {
                    let ghost prev = out@;
                    let h = hs[i].clone();
                    assert(h@ == hs@[i as int]@);
                    out.push(h);
                    i += 1;
                    assert(string_texts(out@) =~= string_texts(prev).push(h@));
                    assert(string_texts(out@) =~= string_texts(hs@).take(i as int));
                }
                assert(string_texts(hs@).take(i as int) =~= string_texts(hs@));
                out
            },
            None => {
                let out: Vec<String> = Vec::new();
                assert(string_texts(out@) =~= Seq::<Seq<char>>::empty());
                out
            },
        }
    }

    /// The record, if any.
    pub fn data(&self) -> (r: Option<&DataLine>)
        ensures
            match r {
                Some(d) => self@.0 == Some(d@),
                None => self@.0 is None,
            },
    {
        match &self.data {
            Some(d) => Some(d),
            None => None,
        }
    }

    /// The comment, if any.
    pub fn comment(&self) -> (r: Option<&String>)
        ensures
            match r {
                Some(c) => self@.1 == Some(c@),
                None => self@.1 is None,
            },
    {
        match &self.comment {
            Some(c) => Some(c),
            None => None,
        }
    }

    /// The record, without the comment.
    pub fn into_data(self) -> (r: Option<DataLine>)
        ensures
            opt_record_view(r) == self@.0,
            self.wf() ==> match r {
                Some(d) => d.wf(),
                None => true,
            },
    {
        self.data
    }

    /// The line, owning all its text.
    pub fn into_owned(self) -> (r: Line)
        ensures
            r@ == self@,
            self.wf() ==> r.wf(),
    {
        self
    }

    /// The text of the line.
    pub fn to_text(&self) -> (r: String)
        ensures
            r@ == line_text(self@),
    {
        let mut out = String::new();
        match (&self.data, &self.comment) {
            (Some(d), Some(c)) => {
                d.push_text(&mut out);
                proof {
                    reveal_strlit("  # ");
                }
                out.append("  # ");
                out.append(c.as_str());
            },
            (None, Some(c)) => {
                proof {
                    reveal_strlit("# ");
                }
                out.append("# ");
                out.append(c.as_str());
            },
            (Some(d), None) => {
                d.push_text(&mut out);
            },
            (None, None) => {},
        }
        assert(out@ =~= line_text(self@));
        out
    }
}

impl std::str::FromStr for Line {
    type Err = DataParseError;

    fn from_str(s: &str) -> Result<Line, DataParseError> {
        Line::new(s)
    }
}

} // verus!
