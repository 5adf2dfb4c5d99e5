//! Reading a hosts file line by line: its raw lines, its records, and the
//! alias and address pairs of its records. A line that fails, to be read or
//! to be parsed, yields an error in its place, and reading goes on with the
//! next line.
use crate::address::IpAddr;
use crate::data_line::{pair_texts, record_pairs, DataError, DataLine, DataParseError};
use crate::line::{parse_line, Line, LineView};
use std::io::Error as IoError;
use vstd::prelude::*;

verus! {

#[verifier::external_type_specification]
#[verifier::external_body]
pub struct ExIoError(IoError);

/// Error found when reading a line of a hosts file.
#[derive(Debug)]
pub enum LineReadError {
    /// The line could not be read.
    Read(IoError),
    /// The line could not be parsed.
    Parse(DataParseError),
}

impl From<IoError> for LineReadError {
    fn from(e: IoError) -> LineReadError {
        LineReadError::Read(e)
    }
}

impl vstd::std_specs::convert::FromSpecImpl<IoError> for LineReadError {
    open spec fn obeys_from_spec() -> bool {
        true
    }

    open spec fn from_spec(v: IoError) -> LineReadError {
        LineReadError::Read(v)
    }
}

impl From<DataParseError> for LineReadError {
    fn from(e: DataParseError) -> LineReadError {
        LineReadError::Parse(e)
    }
}

impl vstd::std_specs::convert::FromSpecImpl<DataParseError> for LineReadError {
    open spec fn obeys_from_spec() -> bool {
        true
    }

    open spec fn from_spec(v: DataParseError) -> LineReadError {
        LineReadError::Parse(v)
    }
}

/// A failed line as the contracts speak of it: `None` when it could not be
/// read, else why it could not be parsed.
pub open spec fn error_view(e: LineReadError) -> Option<DataError> {
    match e {
        LineReadError::Read(_) => None,
        LineReadError::Parse(p) => Some(p@),
    }
}

/// A raw line: its text, or `None` when it could not be read.
pub open spec fn raw_view(r: Result<String, IoError>) -> Option<Seq<char>> {
    match r {
        Ok(s) => Some(s@),
        Err(_) => None,
    }
}

pub open spec fn raws_view(v: Seq<Result<String, IoError>>) -> Seq<Option<Seq<char>>> {
    v.map_values(|r: Result<String, IoError>| raw_view(r))
}

/// What one raw line yields.
pub open spec fn line_outcome(raw: Option<Seq<char>>) -> Result<LineView, Option<DataError>> {
    match raw {
        None => Err(None),
        Some(s) => match parse_line(s) {
            Ok(l) => Ok(l),
            Err(e) => Err(Some(e)),
        },
    }
}

/// What raw lines yield as records: one item per line that fails or holds a
/// record; blank and comment-only lines yield nothing.
pub open spec fn data_outcomes(raws: Seq<Option<Seq<char>>>) -> Seq<
    Result<(IpAddr, Seq<Seq<char>>), Option<DataError>>,
>
    decreases raws.len(),
{
    if raws.len() == 0 {
        Seq::empty()
    } else {
        let rest = data_outcomes(raws.drop_first());
        match line_outcome(raws[0]) {
            Err(e) => seq![Err(e)] + rest,
            Ok(l) => match l.0 {
                Some(d) => seq![Ok(d)] + rest,
                None => rest,
            },
        }
    }
}

/// What records yield as pairs: each record its pairs, each failure itself.
pub open spec fn expand(outs: Seq<Result<(IpAddr, Seq<Seq<char>>), Option<DataError>>>) -> Seq<
    Result<(Seq<char>, IpAddr), Option<DataError>>,
>
    decreases outs.len(),
{
    if outs.len() == 0 {
        Seq::empty()
    } else {
        let rest = expand(outs.drop_first());
        match outs[0] {
            Ok(d) => oks(record_pairs(d)) + rest,
            Err(e) => seq![Err(e)] + rest,
        }
    }
}

pub open spec fn oks(p: Seq<(Seq<char>, IpAddr)>) -> Seq<Result<(Seq<char>, IpAddr), Option<DataError>>> {
    p.map_values(|x: (Seq<char>, IpAddr)| Ok(x))
}

pub open spec fn line_result_view(r: Result<Line, LineReadError>) -> Result<LineView, Option<DataError>> {
    match r {
        Ok(l) => Ok(l@),
        Err(e) => Err(error_view(e)),
    }
}

pub open spec fn data_result_view(r: Result<DataLine, LineReadError>) -> Result<
    (IpAddr, Seq<Seq<char>>),
    Option<DataError>,
> {
    match r {
        Ok(d) => Ok(d@),
        Err(e) => Err(error_view(e)),
    }
}

pub open spec fn pair_result_view(r: Result<(String, IpAddr), LineReadError>) -> Result<
    (Seq<char>, IpAddr),
    Option<DataError>,
> {
    match r {
        Ok(p) => Ok((p.0@, p.1)),
        Err(e) => Err(error_view(e)),
    }
}

/// The lines of a hosts file, each read or failed to be read.
pub struct HostsFile {
    inner: Vec<Result<String, IoError>>,
}

impl View for HostsFile {
    type V = Seq<Option<Seq<char>>>;

    closed spec fn view(&self) -> Seq<Option<Seq<char>>> {
        raws_view(self.inner@)
    }
}

/// Reads one raw line, consuming it.
fn read_line(rest: &mut Vec<Result<String, IoError>>) -> (r: Result<Line, LineReadError>)
    requires
        old(rest)@.len() > 0,
    ensures
        raws_view(final(rest)@) == raws_view(old(rest)@).drop_first(),
        line_result_view(r) == line_outcome(raws_view(old(rest)@)[0]),
        r matches Ok(l) ==> l.wf(),
{
    let ghost before = rest@;
    let raw = rest.remove(0);
    assert(raws_view(rest@) =~= raws_view(before).drop_first());
    match raw {
        Err(e) => Err(LineReadError::Read(e)),
        Ok(s) => match Line::new(s.as_str()) {
            Ok(l) => Ok(l.into_owned()),
            Err(e) => Err(LineReadError::Parse(e)),
        },
    }
}

impl HostsFile {
    /// A hosts file of the given lines, as they were read.
    pub fn read(lines: Vec<Result<String, IoError>>) -> (r: HostsFile)
        ensures
            r@ == raws_view(lines@),
    {
        HostsFile { inner: lines }
    }

    /// All lines of the file.
    pub fn lines(self) -> (r: Lines)
        ensures
            r@ == self@.map_values(|raw: Option<Seq<char>>| line_outcome(raw)),
    {
        Lines { rest: self.inner }
    }

    /// The records of the file.
    pub fn data_lines(self) -> (r: DataLines)
        ensures
            r@ == data_outcomes(self@),
    {
        DataLines { rest: self.inner }
    }

    /// The alias and address pairs of the records of the file.
    pub fn pairs(self) -> (r: Pairs)
        ensures
            r@ == expand(data_outcomes(self@)),
            r.wf(),
    {
        let inner = self.data_lines();
        let pending: Vec<(String, IpAddr)> = Vec::new();
        let r = Pairs { inner, pending, pos: 0 };
        assert(r@ =~= expand(data_outcomes(self@)));
        r
    }
}

/// The lines of a hosts file that are yet to come.
pub struct Lines {
    rest: Vec<Result<String, IoError>>,
}

impl View for Lines {
    type V = Seq<Result<LineView, Option<DataError>>>;

    closed spec fn view(&self) -> Seq<Result<LineView, Option<DataError>>> {
        raws_view(self.rest@).map_values(|raw: Option<Seq<char>>| line_outcome(raw))
    }
}

impl Lines {
    /// The next line, or its failure; `None` at the end.
    pub fn next(&mut self) -> (r: Option<Result<Line, LineReadError>>)
        ensures
            old(self)@.len() == 0 ==> r is None && final(self)@ == old(self)@,
            old(self)@.len() > 0 ==> r is Some && line_result_view(r->Some_0) == old(self)@[0]
                && final(self)@ == old(self)@.drop_first(),
    {
        if self.rest.len() == 0 {
            return None;
        }
        let r = read_line(&mut self.rest);
        assert(self@ =~= old(self)@.drop_first());
        Some(r)
    }
}

/// The records of a hosts file that are yet to come.
pub struct DataLines {
    rest: Vec<Result<String, IoError>>,
}

impl View for DataLines {
    type V = Seq<Result<(IpAddr, Seq<Seq<char>>), Option<DataError>>>;

    closed spec fn view(&self) -> Seq<Result<(IpAddr, Seq<Seq<char>>), Option<DataError>>> {
        data_outcomes(raws_view(self.rest@))
    }
}

impl DataLines {
    /// The next record, or the failure of the next line that fails; blank
    /// and comment-only lines are passed over. `None` at the end.
    pub fn next(&mut self) -> (r: Option<Result<DataLine, LineReadError>>)
        ensures
            old(self)@.len() == 0 ==> r is None && final(self)@ == old(self)@,
            old(self)@.len() > 0 ==> r is Some && data_result_view(r->Some_0) == old(self)@[0]
                && final(self)@ == old(self)@.drop_first(),
            r matches Some(Ok(d)) ==> d.wf(),
    {
        while self.rest.len() > 0
            invariant
                self@ == old(self)@,
            decreases self.rest@.len(),
        {
            let l = read_line(&mut self.rest);
            match l {
                Err(e) => {
                    return Some(Err(e));
                },
                Ok(l) => match l.into_data() {
                    Some(d) => {
                        return Some(Ok(d));
                    },
                    None => {},
                },
            }
        }
        None
    }
}

/// The alias and address pairs of a hosts file that are yet to come.
pub struct Pairs {
    inner: DataLines,
    pending: Vec<(String, IpAddr)>,
    pos: usize,
}

impl View for Pairs {
    type V = Seq<Result<(Seq<char>, IpAddr), Option<DataError>>>;

    closed spec fn view(&self) -> Seq<Result<(Seq<char>, IpAddr), Option<DataError>>> {
        oks(pair_texts(self.pending@).skip(self.pos as int)) + expand(self.inner@)
    }
}

impl Pairs {
    pub closed spec fn wf(&self) -> bool {
        self.pos <= self.pending@.len()
    }

    /// The next pair, or the failure of the next line that fails. `None` at
    /// the end.
    pub fn next(&mut self) -> (r: Option<Result<(String, IpAddr), LineReadError>>)
        requires
            old(self).wf(),
        ensures
            final(self).wf(),
            old(self)@.len() == 0 ==> r is None && final(self)@ == old(self)@,
            old(self)@.len() > 0 ==> r is Some && pair_result_view(r->Some_0) == old(self)@[0]
                && final(self)@ == old(self)@.drop_first(),
    {
        loop
            invariant
                self@ == old(self)@,
                self.pos <= self.pending@.len(),
            decreases self.inner@.len(),
        {
            if self.pos < self.pending.len() {
                let ghost pend = pair_texts(self.pending@).skip(self.pos as int);
                let h = self.pending[self.pos].0.clone();
                let ip = self.pending[self.pos].1;
                self.pos = self.pos + 1;
                assert(pair_texts(self.pending@).skip(self.pos as int) =~= pend.drop_first());
                assert(oks(pend).drop_first() =~= oks(pend.drop_first()));
                assert(self@ =~= old(self)@.drop_first());
                return Some(Ok((h, ip)));
            }
            assert(pair_texts(self.pending@).skip(self.pos as int) =~= Seq::<(Seq<char>, IpAddr)>::empty());
            assert(oks(Seq::<(Seq<char>, IpAddr)>::empty()) =~= Seq::empty());
            assert(self@ =~= expand(self.inner@));
            let ghost outs = self.inner@;
            match self.inner.next() {
                None => {
                    return None;
                },
                Some(Err(e)) => {
                    assert(self@ =~= expand(outs.drop_first()));
                    assert(old(self)@ =~= seq![Err(error_view(e))] + self@);
                    return Some(Err(e));
                },
                Some(Ok(d)) => {
                    let p = d.into_pairs();
                    self.pending = p;
                    self.pos = 0;
                    assert(pair_texts(self.pending@).skip(0) =~= pair_texts(self.pending@));
                    assert(self@ =~= old(self)@);
                },
            }
        }
    }
}

} // verus!
