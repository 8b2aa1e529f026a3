//! Structured records and the block parser.
//!
//! A configuration block is three header lines (`t = <time>`, `b = <x y z>`,
//! `E = <x y z>`) followed by one line of fifteen numeric fields per
//! particle. Parsing is all-or-nothing: the first offending line fails the
//! whole block, and the error carries the offending text.

use crate::text::find_byte;
use crate::text::split_sp;
use crate::text::split_spaces;
use crate::text::trim_bytes;
use crate::text::trim_spec;
use crate::tokens::check_float_token;
use crate::tokens::dec_value;
use crate::tokens::is_float_token;
use crate::tokens::is_u64_token;
use crate::tokens::parse_u64_token;
use crate::tokens::strip_plus;
use vstd::prelude::*;

verus! {

/// Which part of a block an error speaks about.
#[derive(Clone, Copy, Debug, PartialEq, Eq, Structural)]
pub enum ErrField {
    Time,
    BoxDims,
    Energy,
    Nucleotide,
}

/// A failure while reading a trajectory.
///
/// `Io` reports a storage-layer failure and is built by the caller that owns
/// the file handle; all other variants are format failures and name the
/// offending raw text.
#[derive(Debug, Clone, PartialEq)]
pub enum TrajError {
    /// The storage layer failed; the text is the reported reason.
    Io { text: Vec<u8> },
    /// The block ended before this header line.
    MissingHeader { field: ErrField },
    /// The header line does not open with its fixed prefix byte.
    WrongPrefix { field: ErrField, line: Vec<u8> },
    /// The header line has no `=` separator.
    HeaderFormat { field: ErrField, line: Vec<u8> },
    /// A numeric token in this text does not parse.
    BadValue { field: ErrField, text: Vec<u8> },
    /// The text holds the wrong number of numeric tokens.
    BadCount { field: ErrField, text: Vec<u8> },
}

/// The mathematical shape of a `TrajError`.
pub enum TrajErrorV {
    Io { text: Seq<u8> },
    MissingHeader { field: ErrField },
    WrongPrefix { field: ErrField, line: Seq<u8> },
    HeaderFormat { field: ErrField, line: Seq<u8> },
    BadValue { field: ErrField, text: Seq<u8> },
    BadCount { field: ErrField, text: Seq<u8> },
}

impl View for TrajError {
    type V = TrajErrorV;

    open spec fn view(&self) -> TrajErrorV {
        match self {
            TrajError::Io { text } => TrajErrorV::Io { text: text@ },
            TrajError::MissingHeader { field } => TrajErrorV::MissingHeader { field: *field },
            TrajError::WrongPrefix { field, line } => TrajErrorV::WrongPrefix {
                field: *field,
                line: line@,
            },
            TrajError::HeaderFormat { field, line } => TrajErrorV::HeaderFormat {
                field: *field,
                line: line@,
            },
            TrajError::BadValue { field, text } => TrajErrorV::BadValue {
                field: *field,
                text: text@,
            },
            TrajError::BadCount { field, text } => TrajErrorV::BadCount {
                field: *field,
                text: text@,
            },
        }
    }
}

/// One configuration block: a timestamp, three box dimensions, three energy
/// components and one row of fifteen numeric fields per particle. The numeric
/// fields are kept as their validated token text.
#[derive(Debug, Clone, PartialEq)]
pub struct Configuration {
    pub time: u64,
    pub cbox: Vec<Vec<u8>>,
    pub cenergy: Vec<Vec<u8>>,
    pub nucleotides: Vec<Vec<Vec<u8>>>,
}

/// The mathematical shape of a `Configuration`.
#[verifier::ext_equal]
pub struct ConfigurationV {
    pub time: u64,
    pub cbox: Seq<Seq<u8>>,
    pub cenergy: Seq<Seq<u8>>,
    pub nucleotides: Seq<Seq<Seq<u8>>>,
}

impl View for Configuration {
    type V = ConfigurationV;

    open spec fn view(&self) -> ConfigurationV {
        ConfigurationV {
            time: self.time,
            cbox: self.cbox.deep_view(),
            cenergy: self.cenergy.deep_view(),
            nucleotides: self.nucleotides.deep_view(),
        }
    }
}

impl ConfigurationV {
    /// The record invariant: three box tokens, three energy tokens, fifteen
    /// tokens per particle row, every token a well-formed numeric token.
    pub open spec fn wf(self) -> bool {
        &&& self.cbox.len() == 3
        &&& forall|i: int| 0 <= i < self.cbox.len() ==> is_float_token(#[trigger] self.cbox[i])
        &&& self.cenergy.len() == 3
        &&& forall|i: int|
            0 <= i < self.cenergy.len() ==> is_float_token(#[trigger] self.cenergy[i])
        &&& forall|i: int|
            0 <= i < self.nucleotides.len() ==> (#[trigger] self.nucleotides[i]).len() == 15
        &&& forall|i: int, j: int|
            0 <= i < self.nucleotides.len() && 0 <= j < self.nucleotides[i].len()
                ==> is_float_token(#[trigger] self.nucleotides[i][j])
    }
}

/// The header value of line `idx`: the text strictly between the first `=`
/// and the following `=` or end of line, trimmed — after the prefix byte has
/// been checked.
pub open spec fn header_value(lines: Seq<Seq<u8>>, idx: int, prefix: u8, field: ErrField) -> Result<
    Seq<u8>,
    TrajErrorV,
> {
    if lines.len() <= idx {
        Err(TrajErrorV::MissingHeader { field })
    } else {
        let line = lines[idx];
        if line.len() == 0 || line[0] != prefix {
            Err(TrajErrorV::WrongPrefix { field, line })
        } else {
            let k = find_byte(line, 61);
            if k == line.len() {
                Err(TrajErrorV::HeaderFormat { field, line })
            } else {
                let rest = line.skip(k + 1);
                Ok(trim_spec(rest.take(find_byte(rest, 61))))
            }
        }
    }
}

/// Splits `vals` on single spaces and demands `count` well-formed numeric
/// tokens: an unparsable token wins over a wrong count.
pub open spec fn parse_floats(vals: Seq<u8>, count: int, field: ErrField) -> Result<
    Seq<Seq<u8>>,
    TrajErrorV,
> {
    let toks = split_sp(vals);
    if exists|i: int| 0 <= i < toks.len() && !is_float_token(#[trigger] toks[i]) {
        Err(TrajErrorV::BadValue { field, text: vals })
    } else if toks.len() != count {
        Err(TrajErrorV::BadCount { field, text: vals })
    } else {
        Ok(toks)
    }
}

/// Parses the particle rows: each line is trimmed, then must split into
/// fifteen numeric tokens. The first failing row fails them all.
pub open spec fn parse_rows(ls: Seq<Seq<u8>>) -> Result<Seq<Seq<Seq<u8>>>, TrajErrorV>
    decreases ls.len(),
{
    if ls.len() == 0 {
        Ok(Seq::empty())
    } else {
        match parse_floats(trim_spec(ls[0]), 15, ErrField::Nucleotide) {
            Err(e) => Err(e),
            Ok(row) => match parse_rows(ls.skip(1)) {
                Err(e) => Err(e),
                Ok(rest) => Ok(seq![row] + rest),
            },
        }
    }
}

/// Parses one block's raw lines into a record, or the first failure.
pub open spec fn parse_block(lines: Seq<Seq<u8>>) -> Result<ConfigurationV, TrajErrorV> {
    match header_value(lines, 0, 116, ErrField::Time) {
        Err(e) => Err(e),
        Ok(tstr) => if !is_u64_token(tstr) {
            Err(TrajErrorV::BadValue { field: ErrField::Time, text: tstr })
        } else {
            match header_value(lines, 1, 98, ErrField::BoxDims) {
                Err(e) => Err(e),
                Ok(bstr) => match parse_floats(bstr, 3, ErrField::BoxDims) {
                    Err(e) => Err(e),
                    Ok(cbox) => match header_value(lines, 2, 69, ErrField::Energy) {
                        Err(e) => Err(e),
                        Ok(estr) => match parse_floats(estr, 3, ErrField::Energy) {
                            Err(e) => Err(e),
                            Ok(cenergy) => match parse_rows(lines.skip(3)) {
                                Err(e) => Err(e),
                                Ok(rows) => Ok(
                                    ConfigurationV {
                                        time: dec_value(strip_plus(tstr)) as u64,
                                        cbox,
                                        cenergy,
                                        nucleotides: rows,
                                    },
                                ),
                            },
                        },
                    },
                },
            }
        },
    }
}

/// A block that parses satisfies the record invariant.
pub proof fn lemma_parse_block_wf(lines: Seq<Seq<u8>>)
    requires
        parse_block(lines) is Ok,
    ensures
        parse_block(lines)->Ok_0.wf(),
{
    let c = parse_block(lines)->Ok_0;
    lemma_parse_rows_wf(lines.skip(3));
}

/// Rows that parse are all of length fifteen with well-formed tokens.
pub proof fn lemma_parse_rows_wf(ls: Seq<Seq<u8>>)
    requires
        parse_rows(ls) is Ok,
    ensures
        forall|i: int| 0 <= i < parse_rows(ls)->Ok_0.len() ==> (#[trigger] parse_rows(ls)->Ok_0[i]).len()
            == 15,
        forall|i: int, j: int|
            0 <= i < parse_rows(ls)->Ok_0.len() && 0 <= j < parse_rows(ls)->Ok_0[i].len()
                ==> is_float_token(#[trigger] parse_rows(ls)->Ok_0[i][j]),
    decreases ls.len(),
{
    if ls.len() == 0 {
    } else {
        lemma_parse_rows_wf(ls.skip(1));
        let row = parse_floats(trim_spec(ls[0]), 15, ErrField::Nucleotide)->Ok_0;
        let rest = parse_rows(ls.skip(1))->Ok_0;
        assert(parse_rows(ls)->Ok_0 == seq![row] + rest);
        assert forall|i: int| 0 <= i < parse_rows(ls)->Ok_0.len() implies (
        #[trigger] parse_rows(ls)->Ok_0[i]).len() == 15 by {
            if i == 0 {
                assert(parse_rows(ls)->Ok_0[0] == row);
            } else {
                assert(parse_rows(ls)->Ok_0[i] == rest[i - 1]);
            }
        }
        assert forall|i: int, j: int|
            0 <= i < parse_rows(ls)->Ok_0.len() && 0 <= j < parse_rows(ls)->Ok_0[i].len() implies is_float_token(
            #[trigger] parse_rows(ls)->Ok_0[i][j],
        ) by {
            if i == 0 {
                assert(parse_rows(ls)->Ok_0[0] == row);
            } else {
                assert(parse_rows(ls)->Ok_0[i] == rest[i - 1]);
            }
        }
    }
}

/// Extracts and trims the value of header line `idx`, whose first byte must
/// be `prefix`.
#[verifier::loop_isolation(false)]
fn header_value_exec(lines: &Vec<Vec<u8>>, idx: usize, prefix: u8, field: ErrField) -> (r: Result<
    Vec<u8>,
    TrajError,
>)
    ensures
        match r {
            Ok(v) => header_value(lines.deep_view(), idx as int, prefix, field) == Ok::<
                Seq<u8>,
                TrajErrorV,
            >(v@),
            Err(e) => header_value(lines.deep_view(), idx as int, prefix, field) == Err::<
                Seq<u8>,
                TrajErrorV,
            >(e@),
        },
{
    proof {
        assert(lines.deep_view().len() == lines@.len());
    }
    if idx >= lines.len() {
        return Err(TrajError::MissingHeader { field });
    }
    let line: &Vec<u8> = &lines[idx];
    proof {
        assert(lines.deep_view()[idx as int] == line.deep_view());
        assert(line.deep_view() =~= line@);
    }
    if line.len() == 0 || line[0] != prefix {
        return Err(
            TrajError::WrongPrefix { field, line: vstd::slice::slice_to_vec(line.as_slice()) },
        );
    }
    let k = crate::text::find_byte_from(line.as_slice(), 0, 61);
    proof {
        assert(line@.skip(0) =~= line@);
    }
    if k == line.len() {
        return Err(
            TrajError::HeaderFormat { field, line: vstd::slice::slice_to_vec(line.as_slice()) },
        );
    }
    let k2 = crate::text::find_byte_from(line.as_slice(), k + 1, 61);
    let ghost rest = line@.skip(k + 1);
    proof {
        assert(rest =~= line@.skip(0).skip(k + 1));
        assert(k2 - (k + 1) == find_byte(rest, 61));
    }
    let piece = vstd::slice::slice_subrange(line.as_slice(), k + 1, k2);
    proof {
        assert(piece@ =~= rest.take(find_byte(rest, 61)));
    }
    Ok(trim_bytes(piece))
}

/// Splits `vals` on single spaces and checks for `count` numeric tokens.
#[verifier::loop_isolation(false)]
fn parse_floats_exec(vals: &[u8], count: usize, field: ErrField) -> (r: Result<
    Vec<Vec<u8>>,
    TrajError,
>)
    ensures
        match r {
            Ok(v) => parse_floats(vals@, count as int, field) == Ok::<Seq<Seq<u8>>, TrajErrorV>(
                v.deep_view(),
            ),
            Err(e) => parse_floats(vals@, count as int, field) == Err::<Seq<Seq<u8>>, TrajErrorV>(
                e@,
            ),
        },
{
    let toks = split_spaces(vals);
    let n = toks.len();
    proof {
        assert(toks.deep_view().len() == toks@.len());
    }
    let mut i: usize = 0;
    while i < n
        invariant
            0 <= i <= n,
            forall|q: int| 0 <= q < i ==> is_float_token(#[trigger] toks.deep_view()[q]),
        decreases n - i,
    {
        proof {
            assert(toks.deep_view()[i as int] == toks@[i as int].deep_view());
            assert(toks@[i as int].deep_view() =~= toks@[i as int]@);
        }
        if !check_float_token(toks[i].as_slice()) {
            return Err(TrajError::BadValue { field, text: vstd::slice::slice_to_vec(vals) });
        }
        i += 1;
    }
    if n != count {
        return Err(TrajError::BadCount { field, text: vstd::slice::slice_to_vec(vals) });
    }
    Ok(toks)
}

impl Configuration {
    /// Parses one block's raw lines into a record, or the first failure.
    #[verifier::loop_isolation(false)]
    pub fn from_lines(lines: &Vec<Vec<u8>>) -> (r: Result<Configuration, TrajError>)
        ensures
            match r {
                Ok(c) => parse_block(lines.deep_view()) == Ok::<ConfigurationV, TrajErrorV>(c@)
                    && c@.wf(),
                Err(e) => parse_block(lines.deep_view()) == Err::<ConfigurationV, TrajErrorV>(e@),
            },
    {
        let ghost lv = lines.deep_view();
        let tstr = match header_value_exec(lines, 0, 116, ErrField::Time) {
            Ok(v) => v,
            Err(e) => {
                return Err(e);
            },
        };
        let time = match parse_u64_token(tstr.as_slice()) {
            Some(v) => v,
            None => {
                return Err(TrajError::BadValue { field: ErrField::Time, text: tstr });
            },
        };
        let bstr = match header_value_exec(lines, 1, 98, ErrField::BoxDims) {
            Ok(v) => v,
            Err(e) => {
                return Err(e);
            },
        };
        let cbox = match parse_floats_exec(bstr.as_slice(), 3, ErrField::BoxDims) {
            Ok(v) => v,
            Err(e) => {
                return Err(e);
            },
        };
        let estr = match header_value_exec(lines, 2, 69, ErrField::Energy) {
            Ok(v) => v,
            Err(e) => {
                return Err(e);
            },
        };
        let cenergy = match parse_floats_exec(estr.as_slice(), 3, ErrField::Energy) {
            Ok(v) => v,
            Err(e) => {
                return Err(e);
            },
        };
        let n = lines.len();
        let mut rows: Vec<Vec<Vec<u8>>> = Vec::new();
        let mut i: usize = 3;
        proof {
            assert(lv.skip(3).skip(0) =~= lv.skip(3));
        }
        while i < n
            invariant
                3 <= i <= n || (n < 3 && i == 3),
                n == lv.len(),
                parse_rows(lv.skip(3)) == match parse_rows(lv.skip(i as int)) {
                    Err(e) => Err::<Seq<Seq<Seq<u8>>>, TrajErrorV>(e),
                    Ok(rest) => Ok::<Seq<Seq<Seq<u8>>>, TrajErrorV>(rows.deep_view() + rest),
                },
            decreases n - i,
        {
            let line: &Vec<u8> = &lines[i];
            proof {
                assert(lv.skip(i as int)[0] == lv[i as int]);
                assert(lv[i as int] == line.deep_view());
                assert(line.deep_view() =~= line@);
            }
            let trimmed = trim_bytes(line.as_slice());
            let row = match parse_floats_exec(trimmed.as_slice(), 15, ErrField::Nucleotide) {
                Ok(v) => v,
                Err(e) => {
                    return Err(e);
                },
            };
            let ghost rowsold = rows.deep_view();
            proof {
                assert(lv.skip(i as int).skip(1) =~= lv.skip(i + 1));
            }
            rows.push(row);
            proof {
                assert(rows.deep_view() =~~= rowsold.push(row.deep_view()));
                assert forall|rest: Seq<Seq<Seq<u8>>>| true implies rowsold + (seq![
                    row.deep_view(),
                ] + rest) =~= rows.deep_view() + rest by {}
            }
            i += 1;
        }
        proof {
            assert(lv.skip(n as int).len() == 0);
            assert(rows.deep_view() + Seq::<Seq<Seq<u8>>>::empty() =~= rows.deep_view());
        }
        let c = Configuration { time, cbox, cenergy, nucleotides: rows };
        proof {
            assert(c@.cbox =~~= parse_floats(bstr@, 3, ErrField::BoxDims)->Ok_0);
            assert(c@.cenergy =~~= parse_floats(estr@, 3, ErrField::Energy)->Ok_0);
            assert(parse_block(lv) == Ok::<ConfigurationV, TrajErrorV>(c@));
            lemma_parse_block_wf(lv);
        }
        Ok(c)
    }
}

} // verus!
