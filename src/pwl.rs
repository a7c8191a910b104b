//! The PWL text parser: header detection, column resolution and the
//! extraction of the (time, value) field texts of every data row.
use vstd::prelude::*;
use crate::number::{float_text, index_value, is_float_text, parse_index};
use crate::text::{
    contains, holds_byte, lemma_trimmed_start, pieces, same_bytes, split_on, split_words, trim, trimmed, views, words,
};

verus! {

pub const COMMA: u8 = 44;

pub const STAR: u8 = 42;

pub const SEMICOLON: u8 = 59;

/// The column name that a header token must not be for the line to count as a header.
pub open spec fn time_word() -> Seq<u8> {
    seq![116u8, 105u8, 109u8, 101u8]
}

/// The column selected by default when a header names it.
pub open spec fn out_word() -> Seq<u8> {
    seq![111u8, 117u8, 116u8]
}

/// What went wrong while reading a PWL text.
#[derive(Clone, Debug)]
pub enum PwlError {
    /// The text has no line at all.
    EmptyFile,
    /// No data row was found.
    NoSamples,
    /// A column name that the header does not hold.
    ColumnNotFound { name: Vec<u8>, available: Vec<Vec<u8>> },
    /// A column index past the header's last column.
    ColumnOutOfRange { index: usize, count: usize },
    /// Without a header only a numeric column index can be used.
    NotAnIndex { selector: Vec<u8> },
    /// A data row with too few fields for the selected column.
    MissingField { column: usize, count: usize },
    /// A field that is not a number.
    BadNumber { text: Vec<u8> },
}

/// The mathematical value of a [`PwlError`].
pub enum PwlFault {
    EmptyFile,
    NoSamples,
    ColumnNotFound { name: Seq<u8>, available: Seq<Seq<u8>> },
    ColumnOutOfRange { index: nat, count: nat },
    NotAnIndex { selector: Seq<u8> },
    MissingField { column: nat, count: nat },
    BadNumber { text: Seq<u8> },
}

/// The classes of errors, by how a caller reacts to them.
#[derive(PartialEq, Eq, Structural, Clone, Copy, Debug)]
pub enum ErrorKind {
    /// The column selection does not fit the file.
    Configuration,
    /// The file holds no data.
    Structure,
    /// A row is malformed.
    Format,
}

impl View for PwlError {
    type V = PwlFault;

    open spec fn view(&self) -> PwlFault {
        match self {
            PwlError::EmptyFile => PwlFault::EmptyFile,
            PwlError::NoSamples => PwlFault::NoSamples,
            PwlError::ColumnNotFound { name, available } => PwlFault::ColumnNotFound {
                name: name@,
                available: views(available@),
            },
            PwlError::ColumnOutOfRange { index, count } => PwlFault::ColumnOutOfRange {
                index: *index as nat,
                count: *count as nat,
            },
            PwlError::NotAnIndex { selector } => PwlFault::NotAnIndex { selector: selector@ },
            PwlError::MissingField { column, count } => PwlFault::MissingField {
                column: *column as nat,
                count: *count as nat,
            },
            PwlError::BadNumber { text } => PwlFault::BadNumber { text: text@ },
        }
    }
}

pub open spec fn kind_of(e: PwlFault) -> ErrorKind {
    match e {
        PwlFault::EmptyFile | PwlFault::NoSamples => ErrorKind::Structure,
        PwlFault::ColumnNotFound { .. } | PwlFault::ColumnOutOfRange { .. }
        | PwlFault::NotAnIndex { .. } => ErrorKind::Configuration,
        PwlFault::MissingField { .. } | PwlFault::BadNumber { .. } => ErrorKind::Format,
    }
}

impl PwlError {
    /// The class of this error.
    pub fn kind(&self) -> (r: ErrorKind)
        ensures
            r == kind_of(self@),
    {
        match self {
            PwlError::EmptyFile | PwlError::NoSamples => ErrorKind::Structure,
            PwlError::ColumnNotFound { .. } | PwlError::ColumnOutOfRange { .. }
            | PwlError::NotAnIndex { .. } => ErrorKind::Configuration,
            PwlError::MissingField { .. } | PwlError::BadNumber { .. } => ErrorKind::Format,
        }
    }
}

/// A token that marks its line as a header: no comma, not a number, not `time`.
pub open spec fn header_token(t: Seq<u8>) -> bool {
    !holds_byte(t, COMMA) && !float_text(t) && t != time_word()
}

/// A line is a header when one of its words is a header token.
pub open spec fn header_line(line: Seq<u8>) -> bool {
    exists|k: int| 0 <= k < words(line).len() && header_token(words(line)[k])
}

fn time_bytes() -> (r: Vec<u8>)
    ensures
        r@ == time_word(),
{
    let mut r: Vec<u8> = Vec::new();
    r.push(116u8);
    r.push(105u8);
    r.push(109u8);
    r.push(101u8);
    assert(r@ =~= time_word());
    r
}

fn out_bytes() -> (r: Vec<u8>)
    ensures
        r@ == out_word(),
{
    let mut r: Vec<u8> = Vec::new();
    r.push(111u8);
    r.push(117u8);
    r.push(116u8);
    assert(r@ =~= out_word());
    r
}

/// Whether `line` is a header line.
pub fn is_header(line: &[u8]) -> (r: bool)
    ensures
        r == header_line(line@),
{
    let toks = split_words(line);
    let time = time_bytes();
    let mut i: usize = 0;
    while i < toks.len()
        invariant
            i <= toks@.len(),
            views(toks@) == words(line@),
            time@ == time_word(),
            forall|k: int| 0 <= k < i ==> !header_token(words(line@)[k]),
        decreases toks.len() - i,
    {
        let t = &toks[i];
        assert(t@ == words(line@)[i as int]);
        if !contains(t.as_slice(), COMMA) && !is_float_text(t.as_slice()) && !same_bytes(
            t.as_slice(),
            time.as_slice(),
        ) {
            return true;
        }
        i = i + 1;
    }
    false
}

/// The position of the first column called `name`, or -1 where none is.
pub open spec fn index_of(cols: Seq<Seq<u8>>, name: Seq<u8>) -> int
    decreases cols.len(),
{
    if cols.len() == 0 {
        -1
    } else {
        let p = index_of(cols.drop_last(), name);
        if p >= 0 {
            p
        } else if cols.last() == name {
            cols.len() - 1
        } else {
            -1
        }
    }
}

proof fn lemma_index_of_prefix(cols: Seq<Seq<u8>>, name: Seq<u8>, n: int)
    requires
        0 <= n <= cols.len(),
        index_of(cols.take(n), name) >= 0,
    ensures
        index_of(cols, name) == index_of(cols.take(n), name),
    decreases cols.len() - n,
{
    if n < cols.len() {
        assert(cols.take(n + 1).drop_last() =~= cols.take(n));
        lemma_index_of_prefix(cols, name, n + 1);
    } else {
        assert(cols.take(n) =~= cols);
    }
}

/// The column that a selector designates: with a header, an index, else a
/// column name, and by default the column `out` or else the first; without a
/// header, an index, and by default the second column.
pub open spec fn resolve(header: Option<Seq<Seq<u8>>>, column: Option<Seq<u8>>) -> Result<
    nat,
    PwlFault,
> {
    match header {
        Some(cols) => {
            let idx: int = match column {
                Some(c) => match index_value(c) {
                    Some(v) => v as int,
                    None => index_of(cols, c),
                },
                None => if index_of(cols, out_word()) >= 0 {
                    index_of(cols, out_word())
                } else {
                    0
                },
            };
            if idx < 0 {
                Err(PwlFault::ColumnNotFound { name: column->0, available: cols })
            } else if idx >= cols.len() {
                Err(PwlFault::ColumnOutOfRange { index: idx as nat, count: cols.len() })
            } else {
                Ok(idx as nat)
            }
        },
        None => match column {
            Some(c) => match index_value(c) {
                Some(v) => Ok(v),
                None => Err(PwlFault::NotAnIndex { selector: c }),
            },
            None => Ok(1),
        },
    }
}

pub open spec fn opt_views(o: Option<Vec<Vec<u8>>>) -> Option<Seq<Seq<u8>>> {
    match o {
        Some(v) => Some(views(v@)),
        None => None,
    }
}

pub open spec fn opt_view(o: Option<Vec<u8>>) -> Option<Seq<u8>> {
    match o {
        Some(v) => Some(v@),
        None => None,
    }
}

pub open spec fn index_result(r: Result<usize, PwlError>) -> Result<nat, PwlFault> {
    match r {
        Ok(i) => Ok(i as nat),
        Err(e) => Err(e@),
    }
}

/// The position of the first column called `name`.
fn find_column(cols: &Vec<Vec<u8>>, name: &[u8]) -> (r: Option<usize>)
    ensures
        r matches Some(i) ==> index_of(views(cols@), name@) == i as int,
        r is None ==> index_of(views(cols@), name@) == -1,
{
    let ghost vs = views(cols@);
    let mut i: usize = 0;
    assert(vs.take(0) =~= seq![]);
    while i < cols.len()
        invariant
            i <= cols@.len(),
            vs == views(cols@),
            index_of(vs.take(i as int), name@) == -1,
        decreases cols.len() - i,
    {
        assert(vs.take(i + 1).drop_last() =~= vs.take(i as int));
        if same_bytes(cols[i].as_slice(), name) {
            proof {
                lemma_index_of_prefix(vs, name@, i + 1);
            }
            return Some(i);
        }
        i = i + 1;
    }
    assert(vs.take(i as int) =~= vs);
    None
}

/// Resolves a column selector against an optional header.
pub fn resolve_column(header: &Option<Vec<Vec<u8>>>, column: &Option<Vec<u8>>) -> (r: Result<
    usize,
    PwlError,
>)
    ensures
        index_result(r) == resolve(opt_views(*header), opt_view(*column)),
{
    match header {
        Some(cols) => {
            let idx: usize = match column {
                Some(c) => match parse_index(c.as_slice()) {
                    Some(v) => v,
                    None => match find_column(cols, c.as_slice()) {
                        Some(p) => p,
                        None => {
                            let available = cols.clone();
                            assert(views(available@) =~= views(cols@));
                            return Err(PwlError::ColumnNotFound { name: c.clone(), available });
                        },
                    },
                },
                None => {
                    let out = out_bytes();
                    match find_column(cols, out.as_slice()) {
                        Some(p) => p,
                        None => 0,
                    }
                },
            };
            if idx >= cols.len() {
                Err(PwlError::ColumnOutOfRange { index: idx, count: cols.len() })
            } else {
                Ok(idx)
            }
        },
        None => match column {
            Some(c) => match parse_index(c.as_slice()) {
                Some(v) => Ok(v),
                None => Err(PwlError::NotAnIndex { selector: c.clone() }),
            },
            None => Ok(1),
        },
    }
}

/// A blank line or a comment, once trimmed.
pub open spec fn skipped(t: Seq<u8>) -> bool {
    t.len() == 0 || t[0] == STAR || t[0] == SEMICOLON
}

/// The fields of a trimmed data row: comma-separated and trimmed when the row
/// holds a comma, else whitespace-separated.
pub open spec fn fields(t: Seq<u8>) -> Seq<Seq<u8>> {
    if holds_byte(t, COMMA) {
        pieces(t, COMMA).map_values(|p: Seq<u8>| trim(p))
    } else {
        words(t)
    }
}

/// The (time, value) texts of a trimmed data row, read from field 0 and field
/// `col`; a comma row has its time checked before the field count, a
/// whitespace row after it.
pub open spec fn row(t: Seq<u8>, col: nat) -> Result<(Seq<u8>, Seq<u8>), PwlFault> {
    let f = fields(t);
    let short = col >= f.len();
    let bad_time = f.len() == 0 || !float_text(f[0]);
    if holds_byte(t, COMMA) && bad_time {
        Err(PwlFault::BadNumber { text: f[0] })
    } else if short {
        Err(PwlFault::MissingField { column: col, count: f.len() })
    } else if bad_time {
        Err(PwlFault::BadNumber { text: f[0] })
    } else if !float_text(f[col as int]) {
        Err(PwlFault::BadNumber { text: f[col as int] })
    } else {
        Ok((f[0], f[col as int]))
    }
}

/// What a line contributes: nothing when it is skipped, else its row.
pub open spec fn line_outcome(line: Seq<u8>, col: nat) -> Result<
    Option<(Seq<u8>, Seq<u8>)>,
    PwlFault,
> {
    let t = trim(line);
    if skipped(t) {
        Ok(None)
    } else {
        match row(t, col) {
            Ok(p) => Ok(Some(p)),
            Err(e) => Err(e),
        }
    }
}

pub open spec fn pair_view(p: (Vec<u8>, Vec<u8>)) -> (Seq<u8>, Seq<u8>) {
    (p.0@, p.1@)
}

pub open spec fn pair_views(v: Seq<(Vec<u8>, Vec<u8>)>) -> Seq<(Seq<u8>, Seq<u8>)> {
    v.map_values(|p: (Vec<u8>, Vec<u8>)| pair_view(p))
}

pub open spec fn line_result(r: Result<Option<(Vec<u8>, Vec<u8>)>, PwlError>) -> Result<
    Option<(Seq<u8>, Seq<u8>)>,
    PwlFault,
> {
    match r {
        Ok(Some(p)) => Ok(Some(pair_view(p))),
        Ok(None) => Ok(None),
        Err(e) => Err(e@),
    }
}

proof fn lemma_words_start(t: Seq<u8>)
    requires
        t.len() > 0,
        !crate::text::is_space(t[0]),
    ensures
        words(t).len() >= 1,
    decreases t.len(),
{
    if t.len() > 1 {
        lemma_words_start(t.drop_last());
    }
}

/// The fields of a trimmed row.
fn row_fields(t: &[u8]) -> (r: Vec<Vec<u8>>)
    requires
        t@.len() > 0,
        !crate::text::is_space(t@[0]),
    ensures
        views(r@) == fields(t@),
        r@.len() >= 1,
{
    if contains(t, COMMA) {
        let parts = split_on(t, COMMA);
        let mut out: Vec<Vec<u8>> = Vec::new();
        let mut i: usize = 0;
        while i < parts.len()
            invariant
                i <= parts@.len(),
                views(parts@) == pieces(t@, COMMA),
                views(out@) == views(parts@).take(i as int).map_values(|p: Seq<u8>| trim(p)),
            decreases parts.len() - i,
        {
            let ghost before = out@;
            let f = trimmed(parts[i].as_slice());
            assert(views(parts@)[i as int] == parts@[i as int]@);
            out.push(f);
            assert(views(out@) =~= views(before).push(f@));
            assert(views(out@) =~= views(parts@).take(i + 1).map_values(|p: Seq<u8>| trim(p)));
            i = i + 1;
        }
        assert(views(parts@).take(i as int) =~= views(parts@));
        out
    } else {
        proof {
            lemma_words_start(t@);
        }
        split_words(t)
    }
}

/// Reads one line of a PWL text: `None` for a blank or comment line, else
/// the texts of its time field and of field `col`.
pub fn parse_line(line: &[u8], col: usize) -> (r: Result<Option<(Vec<u8>, Vec<u8>)>, PwlError>)
    ensures
        line_result(r) == line_outcome(line@, col as nat),
{
    let t = trimmed(line);
    if t.len() == 0 || t[0] == STAR || t[0] == SEMICOLON {
        return Ok(None);
    }
    let comma = contains(t.as_slice(), COMMA);
    proof {
        lemma_trimmed_start(line@);
    }
    let f = row_fields(t.as_slice());
    assert(f@.len() == fields(t@).len());
    if comma && !is_float_text(f[0].as_slice()) {
        return Err(PwlError::BadNumber { text: f[0].clone() });
    }
    if col >= f.len() {
        return Err(PwlError::MissingField { column: col, count: f.len() });
    }
    if !is_float_text(f[0].as_slice()) {
        return Err(PwlError::BadNumber { text: f[0].clone() });
    }
    if !is_float_text(f[col].as_slice()) {
        return Err(PwlError::BadNumber { text: f[col].clone() });
    }
    Ok(Some((f[0].clone(), f[col].clone())))
}

/// The rows of `lines`, in order, or the first error met.
pub open spec fn collect_rows(lines: Seq<Seq<u8>>, col: nat) -> Result<
    Seq<(Seq<u8>, Seq<u8>)>,
    PwlFault,
>
    decreases lines.len(),
{
    if lines.len() == 0 {
        Ok(seq![])
    } else {
        match collect_rows(lines.drop_last(), col) {
            Err(e) => Err(e),
            Ok(rows) => match line_outcome(lines.last(), col) {
                Err(e) => Err(e),
                Ok(None) => Ok(rows),
                Ok(Some(p)) => Ok(rows.push(p)),
            },
        }
    }
}

/// What a PWL text yields: the header (when its first line is one), the
/// resolved column and the (time, value) texts of its data rows.
pub open spec fn parse_text(lines: Seq<Seq<u8>>, column: Option<Seq<u8>>) -> Result<
    (Option<Seq<Seq<u8>>>, nat, Seq<(Seq<u8>, Seq<u8>)>),
    PwlFault,
> {
    if lines.len() == 0 {
        Err(PwlFault::EmptyFile)
    } else {
        let h = header_line(lines[0]);
        let header = if h {
            Some(words(lines[0]))
        } else {
            None
        };
        match resolve(header, column) {
            Err(e) => Err(e),
            Ok(col) => {
                let data = if h {
                    lines.drop_first()
                } else {
                    lines
                };
                match collect_rows(data, col) {
                    Err(e) => Err(e),
                    Ok(rows) => if rows.len() == 0 {
                        Err(PwlFault::NoSamples)
                    } else {
                        Ok((header, col, rows))
                    },
                }
            },
        }
    }
}

/// A parsed PWL text.
#[derive(Clone, Debug)]
pub struct PwlData {
    /// The column names, when the text starts with a header line.
    pub header: Option<Vec<Vec<u8>>>,
    /// The position of the value field in each row.
    pub column: usize,
    /// The texts of the time and value fields of each data row, in order.
    pub points: Vec<(Vec<u8>, Vec<u8>)>,
}

pub open spec fn data_result(r: Result<PwlData, PwlError>) -> Result<
    (Option<Seq<Seq<u8>>>, nat, Seq<(Seq<u8>, Seq<u8>)>),
    PwlFault,
> {
    match r {
        Ok(d) => Ok((opt_views(d.header), d.column as nat, pair_views(d.points@))),
        Err(e) => Err(e@),
    }
}

/// Reads the rows of `lines` from position `from` on.
fn read_rows(lines: &Vec<Vec<u8>>, from: usize, col: usize) -> (r: Result<
    Vec<(Vec<u8>, Vec<u8>)>,
    PwlError,
>)
    requires
        from <= lines@.len(),
    ensures
        match r {
            Ok(v) => collect_rows(views(lines@).skip(from as int), col as nat) == Ok::<
                Seq<(Seq<u8>, Seq<u8>)>,
                PwlFault,
            >(pair_views(v@)),
            Err(e) => collect_rows(views(lines@).skip(from as int), col as nat) == Err::<
                Seq<(Seq<u8>, Seq<u8>)>,
                PwlFault,
            >(e@),
        },
{
    let ghost all = views(lines@).skip(from as int);
    let mut out: Vec<(Vec<u8>, Vec<u8>)> = Vec::new();
    let mut i: usize = from;
    assert(all.take(0) =~= seq![]);
    assert(pair_views(out@) =~= seq![]);
    while i < lines.len()
        invariant
            from <= i <= lines@.len(),
            all == views(lines@).skip(from as int),
            collect_rows(all.take(i - from), col as nat) == Ok::<
                Seq<(Seq<u8>, Seq<u8>)>,
                PwlFault,
            >(pair_views(out@)),
        decreases lines.len() - i,
    {
        let ghost pre = all.take(i - from);
        let ghost next = all.take(i + 1 - from);
        assert(next.drop_last() =~= pre);
        assert(next.last() == lines@[i as int]@);
        match parse_line(lines[i].as_slice(), col) {
            Err(e) => {
                proof {
                    lemma_rows_error(all, i + 1 - from, col as nat);
                }
                return Err(e);
            },
            Ok(None) => {},
            Ok(Some(p)) => {
                let ghost before = out@;
                out.push(p);
                assert(pair_views(out@) =~= pair_views(before).push(pair_view(p)));
            },
        }
        i = i + 1;
    }
    assert(all.take(i - from) =~= all);
    Ok(out)
}

proof fn lemma_rows_error(lines: Seq<Seq<u8>>, n: int, col: nat)
    requires
        0 <= n <= lines.len(),
        collect_rows(lines.take(n), col) is Err,
    ensures
        collect_rows(lines, col) == collect_rows(lines.take(n), col),
    decreases lines.len() - n,
{
    if n < lines.len() {
        assert(lines.take(n + 1).drop_last() =~= lines.take(n));
        lemma_rows_error(lines, n + 1, col);
    } else {
        assert(lines.take(n) =~= lines);
    }
}

/// Parses the lines of a PWL text, selecting the value column by `column`
/// (a name or an index) or by default.
pub fn parse_pwl(lines: &Vec<Vec<u8>>, column: &Option<Vec<u8>>) -> (r: Result<PwlData, PwlError>)
    ensures
        data_result(r) == parse_text(views(lines@), opt_view(*column)),
        r matches Ok(d) ==> d.points@.len() >= 1,
{
    if lines.len() == 0 {
        return Err(PwlError::EmptyFile);
    }
    let ghost ls = views(lines@);
    assert(ls[0] == lines@[0]@);
    let h = is_header(lines[0].as_slice());
    let header: Option<Vec<Vec<u8>>> = if h {
        Some(split_words(lines[0].as_slice()))
    } else {
        None
    };
    let col = match resolve_column(&header, column) {
        Ok(c) => c,
        Err(e) => {
            return Err(e);
        },
    };
    let from: usize = if h {
        1
    } else {
        0
    };
    assert(ls.skip(1) =~= ls.drop_first());
    assert(ls.skip(0) =~= ls);
    match read_rows(lines, from, col) {
        Err(e) => Err(e),
        Ok(points) => {
            if points.len() == 0 {
                Err(PwlError::NoSamples)
            } else {
                Ok(PwlData { header, column: col, points })
            }
        },
    }
}

} // verus!
