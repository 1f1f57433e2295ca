//! Standard gaussian-splatting `.ply` files.

use vstd::prelude::*;
use vstd::slice::slice_subrange;

pub mod body;
pub mod error;
pub mod header;
pub mod laws;
pub mod layout;
pub mod meaning;
pub mod written;

use crate::ply::body::{word_at, Row};
use crate::ply::error::PlyError;
use crate::ply::header::{
    find_header_end, header_before, header_end, read_header, texts_model, Header, HeaderModel,
    PropertyModel,
};
use crate::ply::layout::{
    column, gaussian_of, is_read, lemma_column_bound, lemma_offset_grows, lemma_sh_place, offset,
    per_channel, required, required_name, sh_column, stride, Layout,
};
use crate::scene::{gaussians_model, Gaussian, GaussianModel};
use crate::text::{decode_lossy, lines, lines_of, string_of, text_of, words, words_of};

verus! {

/// What becomes of a file whose header ends.
pub enum Verdict {
    /// Its body has the most significant byte first.
    BigEndian,
    /// It lacks a property: the one at this place among those that every file must have, and none
    /// before it.
    Missing(nat),
    /// It is too short for its records.
    Truncated,
    /// It ends within a number of its last record.
    FieldPastEnd,
    /// Its body is text.
    Text,
    /// Its body is binary.
    Binary,
}

/// The first property, at or behind `from` among those that every file must have, that is not
/// there.
pub open spec fn missing_from(props: Seq<PropertyModel>, from: nat) -> Option<nat>
    decreases 14 - from,
{
    if from >= 14 {
        None
    } else if column(props, required()[from as int]) is None {
        Some(from)
    } else {
        missing_from(props, from + 1)
    }
}

/// Whether the last of `count` records, which begin at `data_start`, has all numbers of its
/// gaussian before the end of a file of `len` bytes.
pub open spec fn fields_within(
    props: Seq<PropertyModel>,
    data_start: nat,
    count: nat,
    len: nat,
) -> bool {
    count > 0 ==> forall|col: nat| #[trigger]
        is_read(props, col) ==> data_start + (count - 1) * stride(props) + offset(props, col) + 4
            <= len
}

/// What becomes of a file of `len` bytes with this header, behind which the body begins at
/// `data_start`.
pub open spec fn verdict_on(h: HeaderModel, data_start: nat, len: nat) -> Verdict {
    if h.big_endian {
        Verdict::BigEndian
    } else if missing_from(h.props, 0) is Some {
        Verdict::Missing(missing_from(h.props, 0)->0)
    } else if h.ascii {
        Verdict::Text
    } else if data_start + h.count * stride(h.props) > len {
        Verdict::Truncated
    } else if !fields_within(h.props, data_start, h.count, len) {
        Verdict::FieldPastEnd
    } else {
        Verdict::Binary
    }
}

/// The header of a file.
pub open spec fn header_in(bytes: Seq<u8>) -> HeaderModel {
    header_before(bytes, header_end(bytes)->0)
}

/// Where the body of a file begins.
pub open spec fn body_start(bytes: Seq<u8>) -> nat {
    header_end(bytes)->0 + 11
}

/// The number in column `col` of record `i`, where the records begin at `data_start`.
pub open spec fn record_value(
    bytes: Seq<u8>,
    props: Seq<PropertyModel>,
    data_start: nat,
    i: nat,
    col: nat,
) -> u32 {
    word_at(bytes, data_start + i * stride(props) + offset(props, col) as int)
}

/// The gaussian of record `i`, where the records begin at `data_start`.
pub open spec fn record_gaussian(
    bytes: Seq<u8>,
    props: Seq<PropertyModel>,
    data_start: nat,
    i: nat,
) -> GaussianModel {
    gaussian_of(props, |col: nat| record_value(bytes, props, data_start, i, col))
}

/// The gaussians of a binary body.
pub open spec fn binary_gaussians(
    bytes: Seq<u8>,
    h: HeaderModel,
    data_start: nat,
) -> Seq<GaussianModel> {
    Seq::new(h.count, |i: int| record_gaussian(bytes, h.props, data_start, i as nat))
}

/// The words of each line that is not blank.
pub open spec fn rows_of(lines: Seq<Seq<char>>) -> Seq<Seq<Seq<char>>>
    decreases lines.len(),
{
    if lines.len() == 0 {
        seq![]
    } else {
        let before = rows_of(lines.drop_last());
        if words_of(lines.last()).len() == 0 {
            before
        } else {
            before.push(words_of(lines.last()))
        }
    }
}

/// The rows of a text body: the words of its first `count` lines that are not blank.
pub open spec fn text_rows(text: Seq<char>, count: nat) -> Seq<Seq<Seq<char>>> {
    let rows = rows_of(lines_of(text));
    if count < rows.len() {
        rows.take(count as int)
    } else {
        rows
    }
}

/// A file with a text body, whose words have not been read as numbers yet.
pub struct TextPly {
    /// Where a row holds the numbers of a gaussian.
    pub layout: Layout,
    /// The words of each row.
    pub rows: Vec<Vec<String>>,
}

/// A file whose header could be read.
pub enum Ply {
    /// The gaussians of a binary body.
    Gaussians(Vec<Gaussian>),
    /// A text body.
    Text(TextPly),
}

impl Layout {
    /// The last column that a gaussian is built from.
    fn last_read(&self) -> (last: usize)
        requires
            self.wf(),
        ensures
            last < self@.len(),
            is_read(self@, last as nat),
            forall|col: nat| #[trigger] is_read(self@, col) ==> col <= last,
    {
        let mut last: usize = self.columns[0];
        proof {
            assert(column(self@, required()[0]) == Some(last as nat));
            lemma_column_bound(self@, required()[0]);
        }
        let mut n: usize = 0;
        while n < 14
            invariant
                n <= 14,
                self.wf(),
                last < self@.len(),
                is_read(self@, last as nat),
                forall|m: int| 0 <= m < n ==> column(self@, #[trigger] required()[m])->0 <= last,
            decreases 14 - n,
        {
            let col: usize = self.columns[n];
            proof {
                assert(column(self@, required()[n as int]) == Some(col as nat));
                lemma_column_bound(self@, required()[n as int]);
                assert(is_read(self@, col as nat));
            }
            if col > last {
                last = col;
            }
            n += 1;
        }
        let channel: usize = self.rest.len() / 3;
        let mut m: usize = 0;
        while m < 45
            invariant
                m <= 45,
                self.wf(),
                last < self@.len(),
                is_read(self@, last as nat),
                channel == self.rest@.len() / 3,
                forall|n: int| 0 <= n < 14 ==> column(self@, #[trigger] required()[n])->0 <= last,
                forall|i: int|
                    0 <= i < m && i % 15 < per_channel(self@) ==> #[trigger] sh_column(self@, i)
                        <= last,
            decreases 45 - m,
        {
            if m % 15 < self.per_channel {
                proof {
                    assert(self.rest@.map_values(|c: usize| c as nat).len() == self.rest@.len());
                    lemma_sh_place(self@, m as int);
                    assert(m / 15 * channel + m % 15 < self.rest.len());
                }
                let col: usize = self.rest[m / 15 * channel + m % 15];
                proof {
                    assert(self.rest@.map_values(|c: usize| c as nat)[m / 15 * channel + m % 15]
                        == col as nat);
                    assert(col as nat == sh_column(self@, m as int));
                    assert(is_read(self@, col as nat));
                }
                if col > last {
                    last = col;
                }
            }
            m += 1;
        }
        last
    }

    /// Whether the last of `count` records has all numbers of its gaussian within the file.
    fn fields_fit(&self, data_start: usize, count: usize, len: usize) -> (fit: bool)
        requires
            self.wf(),
            data_start + count * self.stride <= len,
        ensures
            fit == fields_within(self@, data_start as nat, count as nat, len as nat),
    {
        if count == 0 {
            return true;
        }
        proof {
            assert((count - 1) * self.stride <= count * self.stride) by (nonlinear_arith)
                requires
                    count >= 1,
                    self.stride >= 0,
            ;
        }
        let room: usize = len - (data_start + (count - 1) * self.stride);
        let last: usize = self.last_read();
        proof {
            assert(self.offsets@[last as int] == offset(self@, last as nat));
            assert forall|col: nat| #[trigger] is_read(self@, col) implies offset(self@, col)
                <= offset(self@, last as nat) by {
                lemma_offset_grows(self@, col, last as nat);
            }
        }
        room >= 4 && self.offsets[last] <= room - 4
    }
}

impl Layout {
    /// Reads the `count` records that begin at `data_start`.
    pub fn read_records(&self, bytes: &[u8], data_start: usize, count: usize) -> (gaussians: Vec<
        Gaussian,
    >)
        requires
            self.wf(),
            data_start + count * self.stride <= bytes@.len(),
            fields_within(self@, data_start as nat, count as nat, bytes@.len()),
        ensures
            gaussians_model(gaussians@) == Seq::new(
                count as nat,
                |i: int| record_gaussian(bytes@, self@, data_start as nat, i as nat),
            ),
    {
        let mut gaussians: Vec<Gaussian> = Vec::new();
        let mut i: usize = 0;
        while i < count
            invariant
                i <= count,
                self.wf(),
                data_start + count * self.stride <= bytes@.len(),
                fields_within(self@, data_start as nat, count as nat, bytes@.len()),
                gaussians@.len() == i,
                forall|k: int|
                    0 <= k < i ==> (#[trigger] gaussians@[k])@ == record_gaussian(
                        bytes@,
                        self@,
                        data_start as nat,
                        k as nat,
                    ),
            decreases count - i,
        {
            proof {
                let s = self.stride as int;
                assert(i * s <= (count - 1) * s && (count - 1) * s <= count * s)
                    by (nonlinear_arith)
                    requires
                        i + 1 <= count,
                        s >= 0,
                ;
                assert(bytes.len() >= data_start + i * s);
            }
            let base: usize = data_start + i * self.stride;
            let row = Row::Record { bytes, base };
            assert forall|col: nat| is_read(self@, col) implies #[trigger] row.has(
                self@,
                col,
            ) by {}
            let gaussian = self.gaussian(&row);
            assert(gaussian@ == record_gaussian(bytes@, self@, data_start as nat, i as nat)) by {
                let a = |col: nat| row.value(self@, col);
                let b = |col: nat|
                    record_value(bytes@, self@, data_start as nat, i as nat, col);
                assert(a =~= b);
            }
            gaussians.push(gaussian);
            i += 1;
        }
        assert(gaussians_model(gaussians@) =~= Seq::new(
            count as nat,
            |i: int| record_gaussian(bytes@, self@, data_start as nat, i as nat),
        ));
        gaussians
    }
}

/// Makes a string of each word.
fn strings_of(words: &Vec<Vec<char>>) -> (strings: Vec<String>)
    ensures
        strings.deep_view() == texts_model(words@),
{
    let mut strings: Vec<String> = Vec::new();
    let mut i: usize = 0;
    while i < words.len()
        invariant
            i <= words@.len(),
            strings@.len() == i,
            forall|k: int| 0 <= k < i ==> (#[trigger] strings@[k])@ == words@[k]@,
        decreases words@.len() - i,
    {
        strings.push(string_of(words[i].as_slice()));
        i += 1;
    }
    assert(strings.deep_view() =~= texts_model(words@));
    strings
}

/// Splits a text into its first `count` rows.
pub fn split_rows(text: &[char], count: usize) -> (rows: Vec<Vec<String>>)
    ensures
        rows.deep_view() == text_rows(text@, count as nat),
{
    let all = lines(text);
    let ghost model = lines_of(text@);
    assert(model.len() == all@.len());
    assert forall|i: int| 0 <= i < all@.len() implies #[trigger] all@[i]@ == model[i] by {
        assert(all@[i].deep_view() =~= all@[i]@);
        assert(all.deep_view()[i] == all@[i].deep_view());
    }
    let mut rows: Vec<Vec<String>> = Vec::new();
    let mut i: usize = 0;
    assert(rows.deep_view() =~= rows_of(model.take(0)));
    while i < all.len() && rows.len() < count
        invariant
            i <= all@.len(),
            rows@.len() <= count,
            model.len() == all@.len(),
            forall|k: int| 0 <= k < all@.len() ==> #[trigger] all@[k]@ == model[k],
            rows.deep_view() == rows_of(model.take(i as int)),
        decreases all@.len() - i,
    {
        let found = words(all[i].as_slice());
        assert(model.take(i + 1).drop_last() =~= model.take(i as int));
        if found.len() > 0 {
            let ghost before = rows.deep_view();
            let row = strings_of(&found);
            assert(row.deep_view() =~= words_of(model[i as int])) by {
                assert forall|k: int| 0 <= k < found@.len() implies #[trigger] found@[k]@
                    == found.deep_view()[k] by {
                    assert(found@[k].deep_view() =~= found@[k]@);
                }
            }
            rows.push(row);
            assert(rows.deep_view() =~= before.push(row.deep_view()));
        }
        i += 1;
    }
    proof {
        lemma_rows_prefix(model, i as int);
        if i == all@.len() {
            assert(model.take(i as int) =~= model);
        }
        assert(rows.deep_view().len() == rows@.len());
        assert(rows.deep_view() =~= text_rows(text@, count as nat));
    }
    rows
}

/// The rows of the first `n` lines come first.
proof fn lemma_rows_prefix(lines: Seq<Seq<char>>, n: int)
    requires
        0 <= n <= lines.len(),
    ensures
        rows_of(lines.take(n)).len() <= rows_of(lines).len(),
        rows_of(lines).take(rows_of(lines.take(n)).len() as int) == rows_of(lines.take(n)),
    decreases lines.len(),
{
    if n == lines.len() {
        assert(lines.take(n) =~= lines);
    } else {
        lemma_rows_prefix(lines.drop_last(), n);
        assert(lines.drop_last().take(n) =~= lines.take(n));
    }
}

/// Whether `ply` is what a file of these bytes comes to, whose header is `h` and whose body begins
/// at `data_start`.
pub open spec fn is_reading(
    ply: Result<Ply, PlyError>,
    bytes: Seq<u8>,
    h: HeaderModel,
    data_start: nat,
) -> bool {
    let verdict = verdict_on(h, data_start, bytes.len());
    match ply {
        Err(PlyError::NoEndHeader) => false,
        Err(PlyError::BigEndian) => verdict == Verdict::BigEndian,
        Err(PlyError::MissingProperty { name }) => {
            &&& verdict is Missing
            &&& name@ == required()[verdict->Missing_0 as int]
        },
        Err(
            PlyError::BodyTruncated {
                count,
                stride: size,
                data_start: start,
                properties,
                file_len,
                unknown,
            },
        ) => {
            &&& verdict == Verdict::Truncated
            &&& count == h.count
            &&& size == stride(h.props)
            &&& start == data_start
            &&& properties == h.props.len()
            &&& file_len == bytes.len()
            &&& unknown.deep_view() == h.unknown
        },
        Err(PlyError::FieldPastEnd) => verdict == Verdict::FieldPastEnd,
        Ok(Ply::Gaussians(gaussians)) => {
            &&& verdict == Verdict::Binary
            &&& gaussians_model(gaussians@) == binary_gaussians(bytes, h, data_start)
        },
        Ok(Ply::Text(text)) => {
            &&& verdict == Verdict::Text
            &&& text.layout.wf()
            &&& text.layout@ == h.props
            &&& text.rows.deep_view() == text_rows(
                text_of(bytes.skip(data_start as int)),
                h.count,
            )
        },
    }
}

/// Reads the body of a file, given its header.
pub fn read_body(header: Header, bytes: &[u8], data_start: usize) -> (ply: Result<Ply, PlyError>)
    requires
        data_start <= bytes@.len(),
        stride(header@.props) <= usize::MAX,
    ensures
        is_reading(ply, bytes@, header@, data_start as nat),
{
    let ghost model = header@;
    if header.big_endian {
        return Err(PlyError::BigEndian);
    }
    let ascii = header.ascii;
    let count = header.count;
    let unknown = header.unknown;
    let layout = match Layout::new(header.props) {
        Ok(layout) => layout,
        Err(n) => {
            proof {
                lemma_missing(model.props, 0, n as nat);
            }
            return Err(PlyError::MissingProperty { name: required_name(n).to_owned() });
        },
    };
    proof {
        lemma_none_missing(model.props, 0);
    }
    if ascii {
        let text = decode_lossy(slice_subrange(bytes, data_start, bytes.len()));
        assert(bytes@.subrange(data_start as int, bytes@.len() as int) =~= bytes@.skip(
            data_start as int,
        ));
        let rows = split_rows(text.as_slice(), count);
        return Ok(Ply::Text(TextPly { layout, rows }));
    }
    let room: usize = bytes.len() - data_start;
    let fits = match count.checked_mul(layout.stride) {
        Some(size) => size <= room,
        None => false,
    };
    if !fits {
        let properties = layout.props.len();
        return Err(
            PlyError::BodyTruncated {
                count,
                stride: layout.stride,
                data_start,
                properties,
                file_len: bytes.len(),
                unknown: strings_of(&unknown),
            },
        );
    }
    if !layout.fields_fit(data_start, count, bytes.len()) {
        return Err(PlyError::FieldPastEnd);
    }
    Ok(Ply::Gaussians(layout.read_records(bytes, data_start, count)))
}

/// Reads a standard gaussian-splatting `.ply` file. Its vertex properties are found by name:
/// `x y z`, `scale_0..2` (logarithms), `rot_0..3` (a quaternion `w, x, y, z`), `f_dc_0..2` (the
/// color's coefficient of degree zero), `opacity` (before the sigmoid) and `f_rest_*` (the color's
/// higher coefficients). All others are skipped.
pub fn parse_ply(bytes: &[u8]) -> (ply: Result<Ply, PlyError>)
    ensures
        header_end(bytes@) is None <==> ply == Err::<Ply, PlyError>(PlyError::NoEndHeader),
        header_end(bytes@) is Some ==> is_reading(
            ply,
            bytes@,
            header_in(bytes@),
            body_start(bytes@),
        ),
{
    match find_header_end(bytes) {
        Some(end) => {
            let header = read_header(bytes, end);
            assert(bytes.len() >= end + 11);
            read_body(header, bytes, end + 11)
        },
        None => Err(PlyError::NoEndHeader),
    }
}

proof fn lemma_missing(props: Seq<PropertyModel>, from: nat, n: nat)
    requires
        from <= n < 14,
        column(props, required()[n as int]) is None,
        forall|m: int| from <= m < n ==> column(props, #[trigger] required()[m]) is Some,
    ensures
        missing_from(props, from) == Some(n),
    decreases n - from,
{
    if from < n {
        assert(column(props, required()[from as int]) is Some);
        lemma_missing(props, from + 1, n);
    }
}

proof fn lemma_none_missing(props: Seq<PropertyModel>, from: nat)
    requires
        from <= 14,
        forall|m: int| from <= m < 14 ==> column(props, #[trigger] required()[m]) is Some,
    ensures
        missing_from(props, from) is None,
    decreases 14 - from,
{
    if from < 14 {
        assert(column(props, required()[from as int]) is Some);
        lemma_none_missing(props, from + 1);
    }
}

/// The numbers among what the words of a row were read as: a word that is no number counts for
/// nothing.
pub open spec fn numbers_in(readings: Seq<Option<u32>>) -> Seq<u32>
    decreases readings.len(),
{
    if readings.len() == 0 {
        seq![]
    } else {
        match readings.last() {
            Some(bits) => numbers_in(readings.drop_last()).push(bits),
            None => numbers_in(readings.drop_last()),
        }
    }
}

/// The numbers of a row.
fn numbers(readings: &Vec<Option<u32>>) -> (numbers: Vec<u32>)
    ensures
        numbers@ == numbers_in(readings@),
{
    let mut numbers: Vec<u32> = Vec::new();
    let mut i: usize = 0;
    assert(readings@.take(0) =~= Seq::<Option<u32>>::empty());
    while i < readings.len()
        invariant
            i <= readings@.len(),
            numbers@ == numbers_in(readings@.take(i as int)),
        decreases readings@.len() - i,
    {
        assert(readings@.take(i + 1).drop_last() =~= readings@.take(i as int));
        match readings[i] {
            Some(bits) => numbers.push(bits),
            None => {},
        }
        i += 1;
    }
    assert(readings@.take(i as int) =~= readings@);
    numbers
}

impl TextPly {
    /// Whether the row that was read like this has all numbers of a gaussian.
    pub open spec fn row_complete(self, readings: Seq<Option<u32>>) -> bool {
        forall|col: nat| #[trigger]
            is_read(self.layout@, col) ==> col < numbers_in(readings).len()
    }

    /// The gaussian of the row that was read like this.
    pub open spec fn row_gaussian(self, readings: Seq<Option<u32>>) -> GaussianModel {
        gaussian_of(self.layout@, |col: nat| numbers_in(readings)[col as int])
    }

    /// Whether all rows that were read like this have all numbers of their gaussians.
    pub fn complete(&self, readings: &Vec<Vec<Option<u32>>>) -> (complete: bool)
        requires
            self.layout.wf(),
        ensures
            complete == forall|i: int|
                0 <= i < readings@.len() ==> self.row_complete(#[trigger] readings@[i]@),
    {
        let last: usize = self.layout.last_read();
        let mut i: usize = 0;
        while i < readings.len()
            invariant
                i <= readings@.len(),
                is_read(self.layout@, last as nat),
                forall|col: nat| #[trigger] is_read(self.layout@, col) ==> col <= last,
                forall|k: int| 0 <= k < i ==> self.row_complete(#[trigger] readings@[k]@),
            decreases readings@.len() - i,
        {
            let numbers = numbers(&readings[i]);
            if numbers.len() <= last {
                assert(!self.row_complete(readings@[i as int]@));
                return false;
            }
            i += 1;
        }
        true
    }

    /// The gaussians of the rows, given what each of their words was read as: the bits of a
    /// number, or nothing.
    pub fn gaussians(&self, readings: &Vec<Vec<Option<u32>>>) -> (gaussians: Vec<Gaussian>)
        requires
            self.layout.wf(),
            forall|i: int|
                0 <= i < readings@.len() ==> self.row_complete(#[trigger] readings@[i]@),
        ensures
            gaussians@.len() == readings@.len(),
            forall|i: int|
                0 <= i < gaussians@.len() ==> (#[trigger] gaussians@[i])@ == self.row_gaussian(
                    readings@[i]@,
                ),
    {
        let mut gaussians: Vec<Gaussian> = Vec::new();
        let mut i: usize = 0;
        while i < readings.len()
            invariant
                i <= readings@.len(),
                self.layout.wf(),
                forall|k: int|
                    0 <= k < readings@.len() ==> self.row_complete(#[trigger] readings@[k]@),
                gaussians@.len() == i,
                forall|k: int|
                    0 <= k < i ==> (#[trigger] gaussians@[k])@ == self.row_gaussian(readings@[k]@),
            decreases readings@.len() - i,
        {
            assert(self.row_complete(readings@[i as int]@));
            let numbers = numbers(&readings[i]);
            let row = Row::Numbers { numbers: numbers.as_slice() };
            let gaussian = self.layout.gaussian(&row);
            assert(gaussian@ == self.row_gaussian(readings@[i as int]@)) by {
                let a = |col: nat| row.value(self.layout@, col);
                let b = |col: nat| numbers_in(readings@[i as int]@)[col as int];
                assert(a =~= b);
            }
            gaussians.push(gaussian);
            i += 1;
        }
        gaussians
    }
}

} // verus!
