//! Turning the rows of an answer into values: splitting a row into its
//! column texts, and handing them to a `Deserializer` or a `Parser`.

use vstd::prelude::*;
use vstd::utf8::{
    decode_utf8,
    decode_utf8_encode_utf8,
    encode_utf8,
    encode_utf8_decode_utf8,
    encode_utf8_valid_utf8,
    valid_utf8,
};

use crate::encoding::{base64_decoded, from_base64, lemma_base64_round_trip, utf8_text};
use crate::encoding::base64_of;
use crate::parser::{
    lemma_parsed_integer_in_range, lemma_read_back_decimal, parsed_integer, ParseError, Parser,
};
use crate::text::decimal;
use crate::structs::{ExecuteResponse, Row, VitessError};

verus! {

/// Why a statement or its answer gave no value.
#[derive(Debug)]
pub enum DriverError {
    /// The answer holds no rows ("No results found").
    NoResults,
    /// One row was expected; the answer holds this many.
    RowCount(usize),
    /// One row with one value was expected; the answer holds `rows` rows, the
    /// first with `values` values.
    ScalarShape { rows: usize, values: usize },
    /// A row could not be turned into a value ("Failed to deserialize row");
    /// the error of the `Deserializer` is inside.
    Row(Box<DriverError>),
    /// The single value could not be read by its `Parser`; the text of the
    /// value is inside.
    Scalar(String),
    /// A row has not as many values as the type it is read into has fields.
    FieldCount { expected: usize, got: usize },
    /// A value of a row could not be read.
    Field(ParseError),
    /// The database refused the statement.
    Vitess(VitessError),
    /// A row is not well formed: its values are not base64 of UTF-8 text, a
    /// length is not a number, or the lengths do not cut the text into whole
    /// characters within it.
    MalformedRow,
}

/// A type whose values can be built from the column texts of one row.
pub trait Deserializer: Sized {
    /// Builds a value from the column texts of a row, in column order.
    fn deserialize_raw(input: Vec<&str>) -> Result<Self, DriverError>;
}

/// Checks that a row has `expected` values, as a `Deserializer` of a type
/// with `expected` fields does first.
pub fn check_field_count(input: &Vec<&str>, expected: usize) -> (r: Result<(), DriverError>)
    ensures
        input.len() == expected ==> r is Ok,
        input.len() != expected ==> r == Err::<(), DriverError>(
            DriverError::FieldCount { expected, got: input.len() },
        ),
{
    if input.len() != expected {
        Err(DriverError::FieldCount { expected, got: input.len() })
    } else {
        Ok(())
    }
}

/// The texts of a vector of strings.
pub open spec fn texts(v: Seq<String>) -> Seq<Seq<char>> {
    v.map_values(|s: String| s@)
}

/// The byte length that the decimal text `l` gives (0 when it gives none).
pub open spec fn length_value(l: Seq<char>) -> int {
    match parsed_integer(l, 0, usize::MAX as int) {
        Ok(n) => n,
        Err(_) => 0,
    }
}

/// Every length text is a decimal `usize`.
pub open spec fn lengths_readable(ls: Seq<Seq<char>>) -> bool {
    forall|i: int| 0 <= i < ls.len() ==> (#[trigger] parsed_integer(ls[i], 0, usize::MAX as int)) is Ok
}

/// Where the value of column `i` starts: the sum of the lengths before it.
pub open spec fn field_offset(ls: Seq<Seq<char>>, i: int) -> int
    decreases i,
{
    if i <= 0 {
        0
    } else {
        field_offset(ls, i - 1) + length_value(ls[i - 1])
    }
}

/// The bytes of the value of column `i`.
pub open spec fn field_bytes(bytes: Seq<u8>, ls: Seq<Seq<char>>, i: int) -> Seq<u8> {
    bytes.subrange(field_offset(ls, i), field_offset(ls, i) + length_value(ls[i]))
}

/// The lengths `ls` cut `bytes` into values that are each UTF-8 text and that
/// together lie within `bytes`.
pub open spec fn fields_fit(bytes: Seq<u8>, ls: Seq<Seq<char>>) -> bool {
    &&& lengths_readable(ls)
    &&& field_offset(ls, ls.len() as int) <= bytes.len()
    &&& forall|i: int| 0 <= i < ls.len() ==> valid_utf8(#[trigger] field_bytes(bytes, ls, i))
}

/// The texts of the columns that the lengths `ls` cut out of `bytes`.
pub open spec fn column_texts(bytes: Seq<u8>, ls: Seq<Seq<char>>) -> Seq<Seq<char>> {
    Seq::new(ls.len(), |i: int| decode_utf8(field_bytes(bytes, ls, i)))
}

proof fn lemma_offsets_grow(ls: Seq<Seq<char>>, i: int, j: int)
    requires
        0 <= i <= j,
    ensures
        field_offset(ls, i) <= field_offset(ls, j),
    decreases j - i,
{
    if i < j {
        lemma_offsets_grow(ls, i, j - 1);
        lemma_parsed_integer_in_range(ls[j - 1], 0, usize::MAX as int);
    }
}

/// The bytes `v[from..to]`, copied.
fn copy_range(v: &Vec<u8>, from: usize, to: usize) -> (r: Vec<u8>)
    requires
        from <= to <= v.len(),
    ensures
        r@ == v@.subrange(from as int, to as int),
{
    let mut r: Vec<u8> = Vec::new();
    let mut i = from;
    while i < to
        invariant
            from <= i <= to <= v.len(),
            r@ == v@.subrange(from as int, i as int),
        decreases to - i,
    {
        r.push(v[i]);
        i = i + 1;
        assert(r@ =~= v@.subrange(from as int, i as int));
    }
    r
}

impl Row {
    /// The length texts of the row.
    pub open spec fn length_texts(&self) -> Seq<Seq<char>> {
        texts(self.lengths@)
    }

    /// The row's values as bytes, when they are valid base64.
    pub open spec fn decoded(&self) -> Option<Seq<u8>> {
        base64_decoded(self.values@)
    }

    /// The values decode, as a whole, to UTF-8 text.
    pub open spec fn text_readable(&self) -> bool {
        self.decoded() matches Some(b) && valid_utf8(b)
    }

    /// All the values decode to UTF-8 text, and the lengths cut it into
    /// whole characters within it.
    pub open spec fn readable(&self) -> bool {
        self.decoded() matches Some(b) && valid_utf8(b) && fields_fit(b, self.length_texts())
    }

    /// The text of each column of a readable row.
    pub open spec fn columns(&self) -> Seq<Seq<char>> {
        column_texts(self.decoded().unwrap(), self.length_texts())
    }

    /// The text of the row's values as a whole.
    pub open spec fn whole_text(&self) -> Seq<char> {
        decode_utf8(self.decoded().unwrap())
    }

    /// The values of the row, decoded and read as one text; `None` when they
    /// are not base64 of UTF-8 text.
    pub fn text(&self) -> (r: Option<String>)
        ensures
            match r {
                Some(t) => self.text_readable() && t@ == self.whole_text(),
                None => !self.text_readable(),
            },
    {
        match from_base64(self.values.as_str()) {
            Some(bytes) => {
                proof {
                    lemma_base64_round_trip(bytes@);
                }
                utf8_text(bytes)
            },
            None => None,
        }
    }

    /// The text of each column, cut out of the decoded values by the lengths;
    /// `None` when the row is not readable.
    pub fn try_fields(&self) -> (r: Option<Vec<String>>)
        ensures
            match r {
                Some(v) => self.readable() && texts(v@) == self.columns(),
                None => !self.readable(),
            },
    {
        match from_base64(self.values.as_str()) {
            Some(bytes) => {
                proof {
                    lemma_base64_round_trip(bytes@);
                }
                cut_columns(&bytes, &self.lengths)
            },
            None => None,
        }
    }
}

/// The text of each column of a row whose values decoded to `bytes`: the
/// lengths, decimal byte counts, cut `bytes` into consecutive pieces from the
/// start. `None` when `bytes` is not UTF-8 text as a whole, a length is not a
/// decimal `usize`, the pieces run past the end, or a piece is not UTF-8 text.
pub fn cut_columns(bytes: &Vec<u8>, lengths: &Vec<String>) -> (r: Option<Vec<String>>)
    ensures
        match r {
            Some(v) => valid_utf8(bytes@) && fields_fit(bytes@, texts(lengths@)) && texts(v@)
                == column_texts(bytes@, texts(lengths@)),
            None => !(valid_utf8(bytes@) && fields_fit(bytes@, texts(lengths@))),
        },
{
    let whole = copy_range(bytes, 0, bytes.len());
    assert(whole@ =~= bytes@);
    if utf8_text(whole).is_none() {
        return None;
    }
    let ghost ls = texts(lengths@);
    let n = lengths.len();
    let mut lens: Vec<usize> = Vec::new();
    for i in 0..n
        invariant
            n == lengths@.len(),
            ls == texts(lengths@),
            lens@.len() == i,
            forall|j: int|
                0 <= j < i ==> parsed_integer(ls[j], 0, usize::MAX as int) == Ok::<
                    int,
                    ParseError,
                >(#[trigger] lens@[j] as int),
    {
        match usize::custom_parse(lengths[i].as_str()) {
            Ok(v) => {
                lens.push(v);
            },
            Err(_) => {
                assert(ls[i as int] == lengths@[i as int]@);
                assert(!lengths_readable(ls)) by {
                    assert(!(parsed_integer(ls[i as int], 0, usize::MAX as int) is Ok));
                }
                return None;
            },
        }
    }
    assert forall|i: int| 0 <= i < ls.len() implies (#[trigger] parsed_integer(
        ls[i],
        0,
        usize::MAX as int,
    )) is Ok by {
        assert(parsed_integer(ls[i], 0, usize::MAX as int) == Ok::<int, ParseError>(
            lens@[i] as int,
        ));
    }
    assert(lengths_readable(ls));
    let mut out: Vec<String> = Vec::new();
    let mut last: usize = 0;
    for i in 0..n
        invariant
            n == ls.len(),
            ls == texts(lengths@),
            valid_utf8(bytes@),
            lens@.len() == n,
            lengths_readable(ls),
            forall|j: int|
                0 <= j < n ==> parsed_integer(ls[j], 0, usize::MAX as int) == Ok::<
                    int,
                    ParseError,
                >(#[trigger] lens@[j] as int),
            last == field_offset(ls, i as int),
            last <= bytes@.len(),
            out@.len() == i,
            forall|j: int| 0 <= j < i ==> valid_utf8(#[trigger] field_bytes(bytes@, ls, j)),
            forall|j: int|
                0 <= j < i ==> (#[trigger] out@[j])@ == decode_utf8(field_bytes(bytes@, ls, j)),
    {
        let len = lens[i];
        assert(length_value(ls[i as int]) == len);
        if len > bytes.len() - last {
            proof {
                lemma_offsets_grow(ls, i + 1, n as int);
            }
            return None;
        }
        let piece = copy_range(bytes, last, last + len);
        assert(piece@ == field_bytes(bytes@, ls, i as int));
        match utf8_text(piece) {
            Some(t) => {
                out.push(t);
            },
            None => {
                return None;
            },
        }
        last = last + len;
    }
    assert(texts(out@) =~= column_texts(bytes@, ls));
    Some(out)
}

/// What a row gives once its `Deserializer` has run: the value it built, or
/// its error wrapped as the error of that row.
pub fn row_outcome<T>(built: Result<T, DriverError>) -> (r: Result<T, DriverError>)
    ensures
        match built {
            Ok(v) => r == Ok::<T, DriverError>(v),
            Err(e) => r == Err::<T, DriverError>(DriverError::Row(Box::new(e))),
        },
{
    match built {
        Ok(v) => Ok(v),
        Err(e) => Err(DriverError::Row(Box::new(e))),
    }
}

/// What a single value gives once its `Parser` has run on its text: the
/// value read, or, when the parser refused it, an error holding the text.
pub fn scalar_outcome<T>(text: String, parsed: Result<T, ParseError>) -> (r: Result<T, DriverError>)
    ensures
        match parsed {
            Ok(v) => r == Ok::<T, DriverError>(v),
            Err(_) => r == Err::<T, DriverError>(DriverError::Scalar(text)),
        },
{
    match parsed {
        Ok(v) => Ok(v),
        Err(_) => Err(DriverError::Scalar(text)),
    }
}

/// What `row_outcome` gives for `built`.
pub open spec fn row_result<T>(built: Result<T, DriverError>) -> Result<T, DriverError> {
    match built {
        Ok(v) => Ok(v),
        Err(e) => Err(DriverError::Row(Box::new(e))),
    }
}

/// The texts of a vector of `&str`.
pub open spec fn str_texts(v: Seq<&str>) -> Seq<Seq<char>> {
    v.map_values(|s: &str| s@)
}

/// `out` is a possible outcome of the `Deserializer` of `T` on the column
/// texts `cols`.
pub open spec fn deserializes_to<T: Deserializer>(cols: Seq<Seq<char>>, out: Result<T, DriverError>) -> bool {
    exists|input: Vec<&str>|
        #![trigger call_ensures(T::deserialize_raw, (input,), out)]
        str_texts(input@) == cols && call_ensures(T::deserialize_raw, (input,), out)
}

/// Every row before row `k` is readable and its `Deserializer` can build a
/// value from its column texts.
pub open spec fn rows_built_before<T: Deserializer>(rows: Seq<Row>, k: int) -> bool {
    forall|j: int|
        0 <= j < k ==> #[trigger] rows[j].readable() && exists|v: T|
            deserializes_to::<T>(rows[j].columns(), Ok(v))
}

/// Building values stopped at `row` with the error `e`: the row is not
/// readable and `e` is `MalformedRow`, or its `Deserializer` failed and `e`
/// is that failure as the error of the row.
pub open spec fn stopped_at<T: Deserializer>(row: Row, e: DriverError) -> bool {
    ||| !row.readable() && e == DriverError::MalformedRow
    ||| row.readable() && exists|e0: DriverError|
        deserializes_to::<T>(row.columns(), Err(e0)) && e == DriverError::Row(Box::new(e0))
}

/// `r` is what building one value per row of `rows` gives: on success one
/// value per row, in row order, each what the `Deserializer` built from that
/// row's column texts; on failure the error of the first row where building
/// stopped, all rows before it built.
pub open spec fn built_rows<T: Deserializer>(rows: Seq<Row>, r: Result<Vec<T>, DriverError>) -> bool {
    &&& r is Ok ==> r->Ok_0@.len() == rows.len() && prefix_built::<T>(
        rows,
        r->Ok_0@,
        rows.len() as int,
    )
    &&& r is Err ==> exists|k: int|
        0 <= k < rows.len() && rows_built_before::<T>(rows, k) && #[trigger] stopped_at::<T>(
            rows[k],
            r->Err_0,
        )
}

/// `out` is a possible outcome of the `Parser` of `T` on the text `text`.
pub open spec fn parses_to<T: Parser>(text: Seq<char>, out: Result<T, ParseError>) -> bool {
    exists|arg: &str|
        #![trigger call_ensures(T::custom_parse, (arg,), out)]
        arg@ == text && call_ensures(T::custom_parse, (arg,), out)
}

/// What `scalar_outcome` gives for the text `text` and the parser's outcome
/// `parsed`.
pub open spec fn scalar_result<T>(text: Seq<char>, parsed: Result<T, ParseError>, r: Result<T, DriverError>) -> bool {
    match parsed {
        Ok(v) => r == Ok::<T, DriverError>(v),
        Err(_) => r matches Err(DriverError::Scalar(t)) && t@ == text,
    }
}

/// `r` is what reading the single value `text` with the `Parser` of `T`
/// gives: the parser's value, or an error holding the text.
pub open spec fn scalar_read<T: Parser>(text: Seq<char>, r: Result<T, DriverError>) -> bool {
    exists|parsed: Result<T, ParseError>| parses_to::<T>(text, parsed) && scalar_result(text, parsed, r)
}

/// The first `n` rows are readable and `values[j]` is what the `Deserializer`
/// built from the column texts of row `j`.
pub open spec fn prefix_built<T: Deserializer>(rows: Seq<Row>, values: Seq<T>, n: int) -> bool {
    forall|j: int|
        0 <= j < n ==> rows[j].readable() && deserializes_to::<T>(
            rows[j].columns(),
            Ok::<T, DriverError>(#[trigger] values[j]),
        )
}

/// One value per row of `rows`, in row order, from each row's column texts
/// (see `built_rows`).
fn build_rows<T: Deserializer>(rows: &Vec<Row>) -> (r: Result<Vec<T>, DriverError>)
    ensures
        built_rows::<T>(rows@, r),
{
    let mut out: Vec<T> = Vec::new();
    let mut i: usize = 0;
    while i < rows.len()
        invariant
            i <= rows@.len(),
            out@.len() == i,
            prefix_built::<T>(rows@, out@, i as int),
        decreases rows@.len() - i,
    {
        assert(rows_built_before::<T>(rows@, i as int)) by {
            assert forall|j: int| 0 <= j < i implies #[trigger] rows@[j].readable() && exists|v: T|
                deserializes_to::<T>(rows@[j].columns(), Ok(v)) by {
                assert(deserializes_to::<T>(rows@[j].columns(), Ok(out@[j])));
            }
        }
        let fields = match rows[i].try_fields() {
            Some(f) => f,
            None => {
                let r: Result<Vec<T>, DriverError> = Err(DriverError::MalformedRow);
                assert(stopped_at::<T>(rows@[i as int], r->Err_0));
                return r;
            },
        };
        let input = as_strs(&fields);
        let ghost input_view = input;
        let built = T::deserialize_raw(input);
        assert(deserializes_to::<T>(rows@[i as int].columns(), built)) by {
            assert(call_ensures(T::deserialize_raw, (input_view,), built));
        }
        match built {
            Ok(v) => {
                let ghost before = out@;
                out.push(v);
                assert forall|j: int| 0 <= j < i + 1 implies rows@[j].readable()
                    && deserializes_to::<T>(
                    rows@[j].columns(),
                    Ok::<T, DriverError>(#[trigger] out@[j]),
                ) by {
                    if j < i {
                        assert(out@[j] == before[j]);
                    }
                }
            },
            Err(e) => {
                let r = row_outcome(Err(e));
                assert(stopped_at::<T>(rows@[i as int], r->Err_0));
                return r;
            },
        }
        i = i + 1;
    }
    assert(i == rows@.len());
    assert(prefix_built::<T>(rows@, out@, i as int));
    let ghost vals = out@;
    let r = Ok(out);
    assert(r->Ok_0@ == vals);
    r
}

/// The views of `v`'s elements as `&str`.
fn as_strs(v: &Vec<String>) -> (r: Vec<&str>)
    ensures
        r@.len() == v@.len(),
        forall|i: int| 0 <= i < v@.len() ==> (#[trigger] r@[i])@ == v@[i]@,
        str_texts(r@) == texts(v@),
{
    let mut r: Vec<&str> = Vec::new();
    for i in 0..v.len()
        invariant
            r@.len() == i,
            forall|j: int| 0 <= j < i ==> (#[trigger] r@[j])@ == v@[j]@,
    {
        r.push(v[i].as_str());
    }
    assert(str_texts(r@) =~= texts(v@));
    r
}

impl ExecuteResponse {
    /// The rows of the answer, when it holds a result with rows.
    pub open spec fn rows_of(&self) -> Option<Seq<Row>> {
        match self.result {
            Some(res) => match res.rows {
                Some(rows) => Some(rows@),
                None => None,
            },
            None => None,
        }
    }

    /// The answer's rows are one row that is readable, if they are one row.
    pub open spec fn single_row_readable(&self) -> bool {
        match self.rows_of() {
            Some(rows) => rows.len() == 1 ==> rows[0].readable(),
            None => true,
        }
    }

    /// The answer's rows are one row with one value, as `deserialize_scalar`
    /// wants them.
    pub open spec fn scalar_shaped(rows: Seq<Row>) -> bool {
        rows.len() == 1 && rows[0].lengths@.len() == 1
    }

    /// The answer holds rows, not none at all (`deserialize_scalar` reads
    /// the first one even when it refuses them).
    pub open spec fn rows_not_empty(&self) -> bool {
        self.rows_of() matches Some(rows) ==> rows.len() > 0
    }

    /// The single value of a scalar-shaped answer is readable text.
    pub open spec fn scalar_readable(&self) -> bool {
        match self.rows_of() {
            Some(rows) => Self::scalar_shaped(rows) ==> rows[0].text_readable(),
            None => true,
        }
    }

    /// The column texts of the single row of the answer.
    pub fn single_row_columns(&self) -> (r: Result<Vec<String>, DriverError>)
        requires
            self.single_row_readable(),
        ensures
            match self.rows_of() {
                None => r == Err::<Vec<String>, DriverError>(DriverError::NoResults),
                Some(rows) => if rows.len() != 1 {
                    r == Err::<Vec<String>, DriverError>(
                        DriverError::RowCount(rows.len() as usize),
                    )
                } else {
                    r matches Ok(v) && texts(v@) == rows[0].columns()
                },
            },
    {
        match &self.result {
            Some(res) => match &res.rows {
                Some(rows) => {
                    if rows.len() != 1 {
                        return Err(DriverError::RowCount(rows.len()));
                    }
                    match rows[0].try_fields() {
                        Some(f) => Ok(f),
                        None => Err(DriverError::MalformedRow),
                    }
                },
                None => Err(DriverError::NoResults),
            },
            None => Err(DriverError::NoResults),
        }
    }

    /// Builds one value from the single row of the answer: its column texts,
    /// in column order, go to the `Deserializer` of `T`, whose outcome is
    /// passed through `row_outcome`.
    pub fn deserialize<T: Deserializer>(&self) -> (r: Result<T, DriverError>)
        requires
            self.single_row_readable(),
        ensures
            match self.rows_of() {
                None => r == Err::<T, DriverError>(DriverError::NoResults),
                Some(rows) => if rows.len() != 1 {
                    r == Err::<T, DriverError>(DriverError::RowCount(rows.len() as usize))
                } else {
                    exists|out: Result<T, DriverError>|
                        deserializes_to::<T>(rows[0].columns(), out) && r == row_result(out)
                },
            },
    {
        let fields = match self.single_row_columns() {
            Ok(f) => f,
            Err(e) => {
                return Err(e);
            },
        };
        let input = as_strs(&fields);
        let ghost input_view = input;
        let out = T::deserialize_raw(input);
        assert(deserializes_to::<T>(texts(fields@), out)) by {
            assert(call_ensures(T::deserialize_raw, (input_view,), out));
        }
        let r = row_outcome(out);
        assert(self.rows_of()->0[0].columns() == texts(fields@));
        assert(deserializes_to::<T>(self.rows_of()->0[0].columns(), out) && r == row_result(out));
        r
    }

    /// Builds one value from each row of the answer, in row order: each
    /// row's column texts go to the `Deserializer` of `T`. It stops at the
    /// first row whose `Deserializer` fails, with that error passed through
    /// `row_outcome`, and at the first row that is not readable, with
    /// `MalformedRow` (where the rows were read before it, in order).
    pub fn deserialize_multiple<T: Deserializer>(&self) -> (r: Result<Vec<T>, DriverError>)
        ensures
            match self.rows_of() {
                None => r == Err::<Vec<T>, DriverError>(DriverError::NoResults),
                Some(rows) => built_rows::<T>(rows, r),
            },
    {
        match &self.result {
            Some(res) => match &res.rows {
                Some(rows) => build_rows(rows),
                None => Err(DriverError::NoResults),
            },
            None => Err(DriverError::NoResults),
        }
    }

    /// The text of the single value of the single row of the answer (the
    /// row's values decoded as a whole).
    pub fn scalar_text(&self) -> (r: Result<String, DriverError>)
        requires
            self.rows_not_empty(),
            self.scalar_readable(),
        ensures
            match self.rows_of() {
                None => r == Err::<String, DriverError>(DriverError::NoResults),
                Some(rows) => if !Self::scalar_shaped(rows) {
                    r == Err::<String, DriverError>(
                        DriverError::ScalarShape {
                            rows: rows.len() as usize,
                            values: rows[0].lengths@.len() as usize,
                        },
                    )
                } else {
                    r matches Ok(t) && t@ == rows[0].whole_text()
                },
            },
    {
        match &self.result {
            Some(res) => match &res.rows {
                Some(rows) => {
                    if rows.len() != 1 || rows[0].lengths.len() != 1 {
                        return Err(
                            DriverError::ScalarShape { rows: rows.len(), values: rows[0].lengths.len() },
                        );
                    }
                    match rows[0].text() {
                        Some(t) => Ok(t),
                        None => Err(DriverError::MalformedRow),
                    }
                },
                None => Err(DriverError::NoResults),
            },
            None => Err(DriverError::NoResults),
        }
    }

    /// Reads the single value of the single row of the answer, its decoded
    /// text as a whole, with the `Parser` of `T`; the outcome is passed
    /// through `scalar_outcome`.
    pub fn deserialize_scalar<T: Parser>(&self) -> (r: Result<T, DriverError>)
        requires
            self.rows_not_empty(),
            self.scalar_readable(),
        ensures
            match self.rows_of() {
                None => r == Err::<T, DriverError>(DriverError::NoResults),
                Some(rows) => if !Self::scalar_shaped(rows) {
                    r == Err::<T, DriverError>(
                        DriverError::ScalarShape {
                            rows: rows.len() as usize,
                            values: rows[0].lengths@.len() as usize,
                        },
                    )
                } else {
                    scalar_read::<T>(rows[0].whole_text(), r)
                },
            },
    {
        let text = match self.scalar_text() {
            Ok(t) => t,
            Err(e) => {
                return Err(e);
            },
        };
        let arg = text.as_str();
        let ghost arg_view = arg;
        let parsed = T::custom_parse(arg);
        assert(parses_to::<T>(text@, parsed)) by {
            assert(call_ensures(T::custom_parse, (arg_view,), parsed));
        }
        let ghost whole = text@;
        let r = scalar_outcome(text, parsed);
        assert(scalar_read::<T>(whole, r)) by {
            assert(parses_to::<T>(whole, parsed) && scalar_result(whole, parsed, r));
        }
        r
    }

    /// The error the database reported, copied into a `DriverError`.
    fn refusal(err: &VitessError) -> (r: DriverError)
        ensures
            r matches DriverError::Vitess(v) && v.code@ == err.code@ && v.message@ == err.message@,
    {
        DriverError::Vitess(VitessError { message: err.message.clone(), code: err.code.clone() })
    }

    /// What fetching one value makes of the answer: the database's error if
    /// it reported one, `MalformedRow` for a single row that is not readable,
    /// otherwise what `deserialize` gives.
    pub fn read_one<T: Deserializer>(&self) -> (r: Result<T, DriverError>)
        ensures
            match self.error {
                Some(e) => r matches Err(DriverError::Vitess(v)) && v.code@ == e.code@
                    && v.message@ == e.message@,
                None => match self.rows_of() {
                    None => r == Err::<T, DriverError>(DriverError::NoResults),
                    Some(rows) => if rows.len() != 1 {
                        r == Err::<T, DriverError>(DriverError::RowCount(rows.len() as usize))
                    } else if !rows[0].readable() {
                        r == Err::<T, DriverError>(DriverError::MalformedRow)
                    } else {
                        exists|out: Result<T, DriverError>|
                            deserializes_to::<T>(rows[0].columns(), out) && r == row_result(out)
                    },
                },
            },
    {
        if let Some(err) = &self.error {
            return Err(Self::refusal(err));
        }
        if let Some(res) = &self.result {
            if let Some(rows) = &res.rows {
                if rows.len() == 1 && rows[0].try_fields().is_none() {
                    return Err(DriverError::MalformedRow);
                }
            }
        }
        self.deserialize()
    }

    /// What fetching all rows makes of the answer: the database's error if it
    /// reported one, otherwise what `deserialize_multiple` gives.
    pub fn read_all<T: Deserializer>(&self) -> (r: Result<Vec<T>, DriverError>)
        ensures
            match self.error {
                Some(e) => r matches Err(DriverError::Vitess(v)) && v.code@ == e.code@
                    && v.message@ == e.message@,
                None => match self.rows_of() {
                    None => r == Err::<Vec<T>, DriverError>(DriverError::NoResults),
                    Some(rows) => built_rows::<T>(rows, r),
                },
            },
    {
        if let Some(err) = &self.error {
            return Err(Self::refusal(err));
        }
        self.deserialize_multiple()
    }

    /// What fetching a single value makes of the answer: the database's
    /// error if it reported one, `MalformedRow` for a single value that is
    /// not readable text, otherwise what `deserialize_scalar` gives.
    pub fn read_scalar<T: Parser>(&self) -> (r: Result<T, DriverError>)
        requires
            self.error is None ==> self.rows_not_empty(),
        ensures
            match self.error {
                Some(e) => r matches Err(DriverError::Vitess(v)) && v.code@ == e.code@
                    && v.message@ == e.message@,
                None => match self.rows_of() {
                    None => r == Err::<T, DriverError>(DriverError::NoResults),
                    Some(rows) => if !Self::scalar_shaped(rows) {
                        r == Err::<T, DriverError>(
                            DriverError::ScalarShape {
                                rows: rows.len() as usize,
                                values: rows[0].lengths@.len() as usize,
                            },
                        )
                    } else if !rows[0].text_readable() {
                        r == Err::<T, DriverError>(DriverError::MalformedRow)
                    } else {
                        scalar_read::<T>(rows[0].whole_text(), r)
                    },
                },
            },
    {
        if let Some(err) = &self.error {
            return Err(Self::refusal(err));
        }
        if let Some(res) = &self.result {
            if let Some(rows) = &res.rows {
                if rows.len() == 1 && rows[0].lengths.len() == 1 && rows[0].text().is_none() {
                    return Err(DriverError::MalformedRow);
                }
            }
        }
        self.deserialize_scalar()
    }
}


proof fn lemma_encode_concat(x: Seq<char>, y: Seq<char>)
    ensures
        encode_utf8(x + y) == encode_utf8(x) + encode_utf8(y),
    decreases x.len(),
{
    if x.len() == 0 {
        assert(x + y =~= y);
        assert(encode_utf8(x) =~= Seq::<u8>::empty());
        assert(Seq::<u8>::empty() + encode_utf8(y) =~= encode_utf8(y));
    } else {
        lemma_encode_concat(x.drop_first(), y);
        assert((x + y)[0] == x[0]);
        assert((x + y).drop_first() =~= x.drop_first() + y);
        assert(encode_utf8(x + y) =~= encode_utf8(x) + encode_utf8(y));
    }
}

/// Joining two UTF-8 texts gives UTF-8 text, and decoding it gives the two
/// decoded texts joined.
proof fn lemma_decode_concat(a: Seq<u8>, b: Seq<u8>)
    requires
        valid_utf8(a),
        valid_utf8(b),
    ensures
        valid_utf8(a + b),
        decode_utf8(a + b) == decode_utf8(a) + decode_utf8(b),
{
    let x = decode_utf8(a);
    let y = decode_utf8(b);
    decode_utf8_encode_utf8(a);
    decode_utf8_encode_utf8(b);
    lemma_encode_concat(x, y);
    encode_utf8_valid_utf8(x + y);
    encode_utf8_decode_utf8(x + y);
}

/// The lengths of a readable row cut its text without losing or repeating
/// anything: the column texts, joined in order, are the text of the bytes
/// that the lengths cover.
pub proof fn lemma_columns_join_to_text(row: Row)
    requires
        row.readable(),
    ensures
        row.columns().flatten() == decode_utf8(
            row.decoded().unwrap().subrange(
                0,
                field_offset(row.length_texts(), row.length_texts().len() as int),
            ),
        ),
{
    let bytes = row.decoded().unwrap();
    let ls = row.length_texts();
    let cols = row.columns();
    let n = ls.len() as int;
    assert forall|k: int| 0 <= k <= n implies {
        &&& field_offset(ls, k) <= bytes.len()
        &&& valid_utf8(#[trigger] bytes.subrange(0, field_offset(ls, k)))
        &&& cols.take(k).flatten() == decode_utf8(bytes.subrange(0, field_offset(ls, k)))
    } by {
        lemma_prefix_columns(bytes, ls, k);
    }
    assert(cols.take(n) =~= cols);
}

proof fn lemma_prefix_columns(bytes: Seq<u8>, ls: Seq<Seq<char>>, k: int)
    requires
        fields_fit(bytes, ls),
        0 <= k <= ls.len(),
    ensures
        field_offset(ls, k) <= bytes.len(),
        valid_utf8(bytes.subrange(0, field_offset(ls, k))),
        column_texts(bytes, ls).take(k).flatten() == decode_utf8(
            bytes.subrange(0, field_offset(ls, k)),
        ),
    decreases k,
{
    let cols = column_texts(bytes, ls);
    lemma_offsets_grow(ls, k, ls.len() as int);
    if k == 0 {
        assert(cols.take(0) =~= Seq::<Seq<char>>::empty());
        assert(bytes.subrange(0, 0) =~= Seq::<u8>::empty());
    } else {
        lemma_prefix_columns(bytes, ls, k - 1);
        lemma_offsets_grow(ls, k - 1, k);
        lemma_offsets_grow(ls, 0, k - 1);
        let o = field_offset(ls, k - 1);
        let p = field_offset(ls, k);
        let a = bytes.subrange(0, o);
        let b = field_bytes(bytes, ls, k - 1);
        assert(valid_utf8(b));
        assert(p == o + length_value(ls[k - 1]));
        assert(o <= p <= bytes.len());
        assert(b == bytes.subrange(o, p));
        lemma_decode_concat(a, b);
        assert(a + b =~= bytes.subrange(0, p));
        assert(cols.take(k) =~= cols.take(k - 1).push(cols[k - 1]));
        cols.take(k - 1).lemma_flatten_push(cols[k - 1]);
    }
}

/// The decimal byte length of the UTF-8 form of each text of `ts`, as the
/// server writes the lengths of a row.
pub open spec fn byte_length_texts(ts: Seq<Seq<char>>) -> Seq<Seq<char>> {
    ts.map_values(|t: Seq<char>| decimal(encode_utf8(t).len()))
}

/// Every text of `ts` has a UTF-8 length that fits in `usize`.
pub open spec fn byte_lengths_fit(ts: Seq<Seq<char>>) -> bool {
    forall|i: int| 0 <= i < ts.len() ==> encode_utf8(#[trigger] ts[i]).len() <= usize::MAX
}

/// A length written in decimal is read back as that very length, whatever
/// its size.
pub proof fn lemma_length_of_decimal(n: nat)
    requires
        n <= usize::MAX,
    ensures
        length_value(decimal(n)) == n,
        parsed_integer(decimal(n), 0, usize::MAX as int) is Ok,
{
    lemma_read_back_decimal(n as int, 0, usize::MAX as int);
}

proof fn lemma_joined_offsets(ts: Seq<Seq<char>>, k: int)
    requires
        0 <= k <= ts.len(),
        byte_lengths_fit(ts),
    ensures
        field_offset(byte_length_texts(ts), k) == encode_utf8(ts.take(k).flatten()).len(),
    decreases k,
{
    let ls = byte_length_texts(ts);
    if k == 0 {
        assert(ts.take(0) =~= Seq::<Seq<char>>::empty());
        assert(ts.take(0).flatten() =~= Seq::<char>::empty());
    } else {
        lemma_joined_offsets(ts, k - 1);
        lemma_length_of_decimal(encode_utf8(ts[k - 1]).len());
        assert(ls[k - 1] == decimal(encode_utf8(ts[k - 1]).len()));
        assert(ts.take(k) =~= ts.take(k - 1).push(ts[k - 1]));
        ts.take(k - 1).lemma_flatten_push(ts[k - 1]);
        lemma_encode_concat(ts.take(k - 1).flatten(), ts[k - 1]);
    }
}

/// Cutting inverts joining: the UTF-8 bytes of texts joined in order, cut by
/// the decimal byte lengths of the texts, give back each text, whatever the
/// texts and their lengths.
pub proof fn lemma_cut_inverts_join(ts: Seq<Seq<char>>)
    requires
        byte_lengths_fit(ts),
    ensures
        valid_utf8(encode_utf8(ts.flatten())),
        fields_fit(encode_utf8(ts.flatten()), byte_length_texts(ts)),
        column_texts(encode_utf8(ts.flatten()), byte_length_texts(ts)) == ts,
{
    let bytes = encode_utf8(ts.flatten());
    let ls = byte_length_texts(ts);
    let n = ts.len() as int;
    encode_utf8_valid_utf8(ts.flatten());
    assert forall|i: int| 0 <= i < n implies (#[trigger] parsed_integer(ls[i], 0, usize::MAX as int)) is Ok by {
        lemma_length_of_decimal(encode_utf8(ts[i]).len());
    }
    assert(ts.take(n) =~= ts);
    lemma_joined_offsets(ts, n);
    assert forall|i: int| 0 <= i < n implies #[trigger] field_bytes(bytes, ls, i) == encode_utf8(ts[i]) by {
        lemma_joined_offsets(ts, i);
        lemma_length_of_decimal(encode_utf8(ts[i]).len());
        let head = ts.take(i);
        let tail = ts.skip(i);
        assert(ts =~= head + tail);
        vstd::seq_lib::lemma_flatten_concat(head, tail);
        assert(tail.first() == ts[i]);
        assert(tail.drop_first() =~= ts.skip(i + 1));
        assert(tail.flatten() == ts[i] + ts.skip(i + 1).flatten());
        lemma_encode_concat(head.flatten(), tail.flatten());
        lemma_encode_concat(ts[i], ts.skip(i + 1).flatten());
        let eh = encode_utf8(head.flatten());
        let ei = encode_utf8(ts[i]);
        let er = encode_utf8(ts.skip(i + 1).flatten());
        assert(bytes == eh + (ei + er));
        assert(field_offset(ls, i) == eh.len());
        assert(length_value(ls[i]) == ei.len());
        assert(bytes.subrange(eh.len() as int, (eh.len() + ei.len()) as int) =~= ei);
    }
    assert forall|i: int| 0 <= i < n implies valid_utf8(#[trigger] field_bytes(bytes, ls, i)) by {
        encode_utf8_valid_utf8(ts[i]);
    }
    assert forall|i: int| 0 <= i < n implies #[trigger] column_texts(bytes, ls)[i] == ts[i] by {
        encode_utf8_decode_utf8(ts[i]);
    }
    assert(column_texts(bytes, ls) =~= ts);
}

/// A row whose values are the base64 of texts joined in order and whose
/// lengths are the decimal byte lengths of those texts is readable, and its
/// columns are exactly those texts: what `try_fields` hands on.
pub proof fn lemma_row_of_texts_gives_them_back(row: Row, ts: Seq<Seq<char>>)
    requires
        byte_lengths_fit(ts),
        row.values@ == base64_of(encode_utf8(ts.flatten())),
        row.length_texts() == byte_length_texts(ts),
    ensures
        row.readable(),
        row.columns() == ts,
{
    crate::encoding::lemma_base64_round_trip(encode_utf8(ts.flatten()));
    lemma_cut_inverts_join(ts);
}

/// A row whose values are the base64 of the UTF-8 form of a text reads as
/// that text as a whole, whatever it holds: what `scalar_text` hands on.
pub proof fn lemma_row_text_gives_it_back(row: Row, t: Seq<char>)
    requires
        row.values@ == base64_of(encode_utf8(t)),
    ensures
        row.text_readable(),
        row.whole_text() == t,
{
    crate::encoding::lemma_base64_round_trip(encode_utf8(t));
    encode_utf8_valid_utf8(t);
    encode_utf8_decode_utf8(t);
}

} // verus!
