//! What the lines of a header mean, and what becomes of the numbers of a body.

use vstd::prelude::*;

use crate::ply::body::word_at;
use crate::ply::error::PlyError;
use crate::ply::header::{
    header_before, header_end, header_of, marker, marker_at, props_model, texts_model,
    type_size_of, Header, HeaderModel, Property, PropertyModel,
};
use crate::ply::laws::lemma_column_is_first;
use crate::ply::layout::{
    column, gaussian_of, is_read, offset, per_channel, required, rest_columns,
    rest_number, rest_pairs, sh_column, sh_of, stride, Layout,
};
use crate::ply::{
    binary_gaussians, body_start, header_in, is_reading, missing_from, numbers_in, record_gaussian, rows_of, text_rows, verdict_on, Ply, TextPly,
    Verdict,
};
use crate::text::{
    decimal_of, is_line, is_word, joined, lemma_decimal_round_trip,
    lemma_lines_of_joined, lemma_prefix, lemma_words_of_spaced, lemma_words_of_text,
    lemma_words_of_word, lines_of, spaced, text_of, unsigned_of, words_of,
};

verus! {

/// A text row has exactly the numbers that its words were read as: where every word is a number,
/// there are as many numbers as words, and each is what its word was read as, whatever its value.
pub proof fn lemma_numbers_are_the_readings(readings: Seq<Option<u32>>)
    requires
        forall|i: int| 0 <= i < readings.len() ==> #[trigger] readings[i] is Some,
    ensures
        numbers_in(readings).len() == readings.len(),
        forall|i: int|
            0 <= i < readings.len() ==> #[trigger] numbers_in(readings)[i] == readings[i]->0,
    decreases readings.len(),
{
    if readings.len() > 0 {
        let before = readings.drop_last();
        assert(readings[readings.len() - 1] is Some);
        assert forall|i: int| 0 <= i < before.len() implies #[trigger] before[i] is Some by {
            assert(before[i] == readings[i]);
        }
        lemma_numbers_are_the_readings(before);
        assert forall|i: int| 0 <= i < readings.len() implies #[trigger] numbers_in(readings)[i]
            == readings[i]->0 by {
            if i < before.len() {
                assert(numbers_in(readings)[i] == numbers_in(before)[i]);
                assert(before[i] == readings[i]);
            }
        }
    }
}

/// The numbers of a row are those of its parts, one after the other; a word that is a number counts
/// once, and a word that is none does not count.
pub proof fn lemma_numbers_of_parts(a: Seq<Option<u32>>, b: Seq<Option<u32>>, bits: u32)
    ensures
        numbers_in(a + b) == numbers_in(a) + numbers_in(b),
        numbers_in(seq![Some(bits)]) == seq![bits],
        numbers_in(seq![None]) == Seq::<u32>::empty(),
        numbers_in(seq![]) == Seq::<u32>::empty(),
    decreases b.len(),
{
    let none = Seq::<Option<u32>>::empty();
    assert(numbers_in(none) =~= Seq::<u32>::empty());
    assert(seq![Some(bits)].drop_last() =~= none);
    assert(numbers_in(seq![Some(bits)]) =~= seq![bits]);
    assert(seq![None::<u32>].drop_last() =~= none);
    if b.len() == 0 {
        assert(a + b =~= a);
        assert(numbers_in(a) + numbers_in(b) =~= numbers_in(a));
    } else {
        lemma_numbers_of_parts(a, b.drop_last(), bits);
        assert((a + b).drop_last() =~= a + b.drop_last());
        assert((a + b).last() == b.last());
        assert(numbers_in(a + b) =~= numbers_in(a) + numbers_in(b));
    }
}

/// Where every word of a row is a number, the gaussian of the row takes each of its numbers from
/// the word in that column, and the row is complete where it has a word for each such column.
pub proof fn lemma_text_row(text: TextPly, readings: Seq<Option<u32>>)
    requires
        forall|i: int| 0 <= i < readings.len() ==> #[trigger] readings[i] is Some,
    ensures
        text.row_complete(readings) <==> forall|col: nat| #[trigger]
            is_read(text.layout@, col) ==> col < readings.len(),
        text.row_complete(readings) && missing_from(text.layout@, 0) is None
            ==> text.row_gaussian(readings) == gaussian_of(
            text.layout@,
            |col: nat| readings[col as int]->0,
        ),
{
    lemma_numbers_are_the_readings(readings);
    if text.row_complete(readings) && missing_from(text.layout@, 0) is None {
        crate::ply::laws::lemma_other_columns_skipped(
            text.layout@,
            |col: nat| numbers_in(readings)[col as int],
            |col: nat| readings[col as int]->0,
        );
    }
}

/// Whether a row is complete, and its gaussian, go by its numbers alone.
pub proof fn lemma_row_by_numbers(text: TextPly, readings: Seq<Option<u32>>)
    ensures
        text.row_complete(readings) <==> forall|col: nat| #[trigger]
            is_read(text.layout@, col) ==> col < numbers_in(readings).len(),
        text.row_gaussian(readings) == gaussian_of(
            text.layout@,
            |col: nat| numbers_in(readings)[col as int],
        ),
{
}

/// Each number of a gaussian is the one in the first column of its name.
pub proof fn lemma_fields_by_name(props: Seq<PropertyModel>, read: spec_fn(nat) -> u32)
    ensures
        ({
            let g = gaussian_of(props, read);
            &&& g.mean == seq![
                read(column(props, "x"@)->0),
                read(column(props, "y"@)->0),
                read(column(props, "z"@)->0),
            ]
            &&& g.log_scale == seq![
                read(column(props, "scale_0"@)->0),
                read(column(props, "scale_1"@)->0),
                read(column(props, "scale_2"@)->0),
            ]
            &&& g.quat == seq![
                read(column(props, "rot_0"@)->0),
                read(column(props, "rot_1"@)->0),
                read(column(props, "rot_2"@)->0),
                read(column(props, "rot_3"@)->0),
            ]
            &&& g.color_dc == seq![
                read(column(props, "f_dc_0"@)->0),
                read(column(props, "f_dc_1"@)->0),
                read(column(props, "f_dc_2"@)->0),
            ]
            &&& g.opacity_raw == read(column(props, "opacity"@)->0)
            &&& g.sh == sh_of(props, read)
        }),
{
}

/// The higher coefficients are there where the file has as many for each channel, and at least
/// one. Those of a channel stand together, and are taken as they are up to the fifteenth; a channel
/// that has fewer is filled up with zeros.
pub proof fn lemma_sh_by_channel(
    props: Seq<PropertyModel>,
    read: spec_fn(nat) -> u32,
    channel: int,
    j: int,
)
    requires
        0 <= channel < 3,
        0 <= j < 15,
    ensures
        ({
            let n = rest_columns(props).len();
            let each = n / 3;
            let sh = sh_of(props, read);
            &&& n == rest_pairs(props, props.len()).len()
            &&& forall|i: int|
                0 <= i < n ==> #[trigger] rest_columns(props)[i] == rest_pairs(
                    props,
                    props.len(),
                )[i].1
            &&& sh is None <==> n == 0 || n % 3 != 0
            &&& sh is Some ==> sh->0.len() == 45
            &&& sh is Some && j < each ==> sh->0[channel * 15 + j] == read(
                rest_columns(props)[channel * each + j],
            )
            &&& sh is Some && j >= each ==> sh->0[channel * 15 + j] == 0
        }),
{
    assert((channel * 15 + j) / 15 == channel && (channel * 15 + j) % 15 == j);
}

/// A gaussian is built from the first column of each name that every file must have, from the
/// columns of the higher coefficients that are used, and from no other.
pub proof fn lemma_columns_read(props: Seq<PropertyModel>, col: nat)
    ensures
        ({
            let n = rest_columns(props).len();
            let each = n / 3;
            is_read(props, col) <==> {
                ||| column(props, "x"@) == Some(col)
                ||| column(props, "y"@) == Some(col)
                ||| column(props, "z"@) == Some(col)
                ||| column(props, "scale_0"@) == Some(col)
                ||| column(props, "scale_1"@) == Some(col)
                ||| column(props, "scale_2"@) == Some(col)
                ||| column(props, "rot_0"@) == Some(col)
                ||| column(props, "rot_1"@) == Some(col)
                ||| column(props, "rot_2"@) == Some(col)
                ||| column(props, "rot_3"@) == Some(col)
                ||| column(props, "f_dc_0"@) == Some(col)
                ||| column(props, "f_dc_1"@) == Some(col)
                ||| column(props, "f_dc_2"@) == Some(col)
                ||| column(props, "opacity"@) == Some(col)
                ||| n % 3 == 0 && exists|channel: int, j: int|
                    0 <= channel < 3 && 0 <= j < 15 && j < each && #[trigger] rest_columns(
                        props,
                    )[channel * each + j] == col
            }
        }),
{
    let n = rest_columns(props).len();
    let each = n / 3;
    let names = required();
    assert(names[0] == "x"@ && names[1] == "y"@ && names[2] == "z"@);
    assert(names[3] == "scale_0"@ && names[4] == "scale_1"@ && names[5] == "scale_2"@);
    assert(names[6] == "rot_0"@ && names[7] == "rot_1"@ && names[8] == "rot_2"@ && names[9]
        == "rot_3"@);
    assert(names[10] == "f_dc_0"@ && names[11] == "f_dc_1"@ && names[12] == "f_dc_2"@ && names[13]
        == "opacity"@);
    if exists|m: int|
        0 <= m < 45 && m % 15 < per_channel(props) && #[trigger] sh_column(props, m) == col {
        let m = choose|m: int|
            0 <= m < 45 && m % 15 < per_channel(props) && #[trigger] sh_column(props, m) == col;
        let channel = m / 15;
        let j = m % 15;
        assert(0 <= channel < 3 && 0 <= j < 15 && j < each);
        assert(rest_columns(props)[channel * each + j] == col);
    }
    if n % 3 == 0 && exists|channel: int, j: int|
        0 <= channel < 3 && 0 <= j < 15 && j < each && #[trigger] rest_columns(props)[channel * each
            + j] == col {
        let (channel, j) = choose|channel: int, j: int|
            0 <= channel < 3 && 0 <= j < 15 && j < each && #[trigger] rest_columns(props)[channel
                * each + j] == col;
        let m = channel * 15 + j;
        assert(m / 15 == channel && m % 15 == j);
        assert(sh_column(props, m) == col);
        assert(per_channel(props) > j);
    }
}

/// The number of a coefficient is what follows `f_rest_` in its name, if that is a number that
/// fits 32 bits; no other name has one.
pub proof fn lemma_rest_names(name: Seq<char>, tail: Seq<char>, k: nat)
    ensures
        rest_number("f_rest_"@ + tail) == unsigned_of(tail, 0xffff_ffff),
        k <= 0xffff_ffff ==> rest_number("f_rest_"@ + decimal_of(k)) == Some(k),
        rest_number(name) is Some ==> name == "f_rest_"@ + name.skip(7),
{
    reveal_strlit("f_rest_");
    lemma_prefix(name, "f_rest_"@, tail);
    lemma_prefix(name, "f_rest_"@, decimal_of(k));
    assert(("f_rest_"@ + tail).skip(7) =~= tail);
    assert(("f_rest_"@ + decimal_of(k)).skip(7) =~= decimal_of(k));
    if k <= 0xffff_ffff {
        lemma_decimal_round_trip(k, 0xffff_ffff);
    }
}

/// The properties of a record lie one right behind the other, and the record ends with the last.
pub proof fn lemma_offsets(props: Seq<PropertyModel>, n: nat)
    requires
        n < props.len(),
    ensures
        offset(props, 0) == 0,
        offset(props, n + 1) == offset(props, n) + props[n as int].size,
        stride(props) == offset(props, props.len()),
{
}

/// The gaussian of record `i` is built from the words of that record: the one in a column begins
/// where the records begin, behind `i` whole records and the properties before that column.
pub proof fn lemma_record_words(
    bytes: Seq<u8>,
    h: HeaderModel,
    data_start: nat,
    i: int,
)
    requires
        0 <= i < h.count,
    ensures
        binary_gaussians(bytes, h, data_start).len() == h.count,
        binary_gaussians(bytes, h, data_start)[i] == gaussian_of(
            h.props,
            |col: nat| word_at(bytes, data_start + i * stride(h.props) + offset(h.props, col)),
        ),
{
    let a = |col: nat| word_at(bytes, data_start + i * stride(h.props) + offset(h.props, col));
    let b = |col: nat| crate::ply::record_value(bytes, h.props, data_start, i as nat, col);
    assert(a =~= b);
}

/// Whether a vertex has a property of this name.
pub open spec fn has_name(props: Seq<PropertyModel>, name: Seq<char>) -> bool {
    exists|i: int| 0 <= i < props.len() && (#[trigger] props[i]).name == name
}

proof fn lemma_missing_name(props: Seq<PropertyModel>, from: nat)
    ensures
        missing_from(props, from) is None ==> forall|m: int|
            from <= m < 14 ==> has_name(props, #[trigger] required()[m]),
        missing_from(props, from) matches Some(n) ==> {
            &&& from <= n < 14
            &&& !has_name(props, required()[n as int])
            &&& forall|m: int| from <= m < n ==> has_name(props, #[trigger] required()[m])
        },
    decreases 14 - from,
{
    if from < 14 {
        lemma_column_is_first(props, required()[from as int]);
        lemma_missing_name(props, from + 1);
    }
}

/// What becomes of a file, in this order: one with the most significant byte first is refused; so
/// is one that lacks a name, by the first that it lacks; a text body is read as text; a binary one
/// is refused where it is too short for its records, or for a number that reaches past the last
/// one's end, and otherwise read.
pub proof fn lemma_verdicts(h: HeaderModel, data_start: nat, len: nat)
    ensures
        ({
            let verdict = verdict_on(h, data_start, len);
            let named = forall|m: int| 0 <= m < 14 ==> has_name(h.props, #[trigger] required()[m]);
            let end = data_start + h.count * stride(h.props);
            let within = h.count == 0 || forall|col: nat| #[trigger]
                is_read(h.props, col) ==> data_start + (h.count - 1) * stride(h.props) + offset(
                    h.props,
                    col,
                ) + 4 <= len;
            &&& verdict is BigEndian <==> h.big_endian
            &&& verdict is Missing <==> !h.big_endian && !named
            &&& verdict matches Verdict::Missing(n) ==> {
                &&& n < 14
                &&& !has_name(h.props, required()[n as int])
                &&& forall|m: int| 0 <= m < n ==> has_name(h.props, #[trigger] required()[m])
            }
            &&& verdict is Text <==> !h.big_endian && named && h.ascii
            &&& verdict is Truncated <==> !h.big_endian && named && !h.ascii && end > len
            &&& verdict is FieldPastEnd <==> !h.big_endian && named && !h.ascii && end <= len
                && !within
            &&& verdict is Binary <==> !h.big_endian && named && !h.ascii && end <= len && within
        }),
{
    lemma_missing_name(h.props, 0);
}

/// The names that every file must have.
pub proof fn lemma_required()
    ensures
        required().len() == 14,
        required() == seq![
            "x"@,
            "y"@,
            "z"@,
            "scale_0"@,
            "scale_1"@,
            "scale_2"@,
            "rot_0"@,
            "rot_1"@,
            "rot_2"@,
            "rot_3"@,
            "f_dc_0"@,
            "f_dc_1"@,
            "f_dc_2"@,
            "opacity"@,
        ],
{
}

/// What is returned for a file goes by what becomes of it: each verdict has one kind of result,
/// with all that belongs to it.
pub proof fn lemma_results(
    ply: Result<Ply, PlyError>,
    bytes: Seq<u8>,
    h: HeaderModel,
    data_start: nat,
)
    requires
        is_reading(ply, bytes, h, data_start),
    ensures
        ({
            let verdict = verdict_on(h, data_start, bytes.len());
            &&& verdict is BigEndian ==> ply is Err && ply->Err_0 is BigEndian
            &&& verdict matches Verdict::Missing(n) ==> {
                &&& ply is Err
                &&& ply->Err_0 is MissingProperty
                &&& ply->Err_0->name@ == required()[n as int]
            }
            &&& verdict is Truncated ==> {
                &&& ply is Err
                &&& ply->Err_0 is BodyTruncated
                &&& ply->Err_0->count == h.count
                &&& ply->Err_0->stride == stride(h.props)
                &&& ply->Err_0->data_start == data_start
                &&& ply->Err_0->properties == h.props.len()
                &&& ply->Err_0->file_len == bytes.len()
                &&& ply->Err_0->unknown.deep_view() == h.unknown
            }
            &&& verdict is FieldPastEnd ==> ply is Err && ply->Err_0 is FieldPastEnd
            &&& verdict is Text ==> {
                &&& ply is Ok
                &&& ply->Ok_0 is Text
                &&& ply->Ok_0->Text_0.layout.wf()
                &&& ply->Ok_0->Text_0.layout@ == h.props
                &&& ply->Ok_0->Text_0.rows.deep_view() == text_rows(
                    text_of(bytes.skip(data_start as int)),
                    h.count,
                )
            }
            &&& verdict is Binary ==> {
                &&& ply is Ok
                &&& ply->Ok_0 is Gaussians
                &&& ply->Ok_0->Gaussians_0@.len() == h.count
                &&& forall|i: int|
                    0 <= i < h.count ==> (#[trigger] ply->Ok_0->Gaussians_0@[i])@
                        == record_gaussian(bytes, h.props, data_start, i as nat)
            }
        }),
{
    if let Ok(Ply::Gaussians(found)) = ply {
        let model = crate::scene::gaussians_model(found@);
        assert(model.len() == found@.len());
        assert forall|i: int| 0 <= i < h.count implies (#[trigger] found@[i])@ == record_gaussian(
            bytes,
            h.props,
            data_start,
            i as nat,
        ) by {
            assert(model[i] == found@[i]@);
            assert(model[i] == binary_gaussians(bytes, h, data_start)[i]);
        }
    }
}

/// The rows of a text are those of its parts; a line with words is the row of these words, and a
/// blank line is none.
pub proof fn lemma_rows_of_parts(a: Seq<Seq<char>>, b: Seq<Seq<char>>, line: Seq<char>)
    ensures
        rows_of(a + b) == rows_of(a) + rows_of(b),
        words_of(line).len() > 0 ==> rows_of(seq![line]) == seq![words_of(line)],
        words_of(line).len() == 0 ==> rows_of(seq![line]) == Seq::<Seq<Seq<char>>>::empty(),
        rows_of(seq![]) == Seq::<Seq<Seq<char>>>::empty(),
    decreases b.len(),
{
    let none = Seq::<Seq<char>>::empty();
    assert(rows_of(none) =~= Seq::<Seq<Seq<char>>>::empty());
    assert(seq![line].drop_last() =~= none);
    if words_of(line).len() > 0 {
        assert(rows_of(seq![line]) =~= seq![words_of(line)]);
    }
    if b.len() == 0 {
        assert(a + b =~= a);
        assert(rows_of(a) + rows_of(b) =~= rows_of(a));
    } else {
        lemma_rows_of_parts(a, b.drop_last(), line);
        assert((a + b).drop_last() =~= a + b.drop_last());
        assert((a + b).last() == b.last());
        assert(rows_of(a + b) =~= rows_of(a) + rows_of(b));
    }
}

/// The rows of a text body are the first ones, as many as there are vertices.
pub proof fn lemma_first_rows(text: Seq<char>, count: nat)
    ensures
        ({
            let all = rows_of(lines_of(text));
            let rows = text_rows(text, count);
            &&& count <= all.len() ==> rows.len() == count
            &&& count > all.len() ==> rows.len() == all.len()
            &&& forall|i: int| 0 <= i < rows.len() ==> #[trigger] rows[i] == all[i]
        }),
{
}

/// Rows are read back as they are written, each on a line of its own.
pub proof fn lemma_rows_are_read_back(rows: Seq<Seq<Seq<char>>>)
    requires
        forall|i: int| 0 <= i < rows.len() ==> (#[trigger] rows[i]).len() > 0,
        forall|i: int, j: int|
            0 <= i < rows.len() && 0 <= j < rows[i].len() ==> is_word(#[trigger] rows[i][j]),
    ensures
        text_rows(joined(rows.map_values(|row: Seq<Seq<char>>| spaced(row))), rows.len()) == rows,
{
    let lines = rows.map_values(|row: Seq<Seq<char>>| spaced(row));
    assert forall|i: int| 0 <= i < lines.len() implies is_line(#[trigger] lines[i]) && words_of(
        lines[i],
    ) == rows[i] by {
        lemma_words_of_text(rows[i]);
    }
    lemma_lines_of_joined(lines);
    lemma_rows_of_lines(lines, rows);
    assert(rows.take(rows.len() as int) =~= rows);
}

proof fn lemma_rows_of_lines(lines: Seq<Seq<char>>, rows: Seq<Seq<Seq<char>>>)
    requires
        lines.len() == rows.len(),
        forall|i: int| 0 <= i < rows.len() ==> (#[trigger] rows[i]).len() > 0,
        forall|i: int| 0 <= i < lines.len() ==> words_of(#[trigger] lines[i]) == rows[i],
    ensures
        rows_of(lines) == rows,
    decreases lines.len(),
{
    if lines.len() > 0 {
        let n = lines.len() - 1;
        assert(words_of(lines[n]) == rows[n]);
        assert forall|i: int| 0 <= i < n implies words_of(#[trigger] lines.drop_last()[i])
            == rows.drop_last()[i] by {
            assert(lines.drop_last()[i] == lines[i]);
        }
        assert forall|i: int| 0 <= i < n implies (#[trigger] rows.drop_last()[i]).len() > 0 by {
            assert(rows.drop_last()[i] == rows[i]);
        }
        lemma_rows_of_lines(lines.drop_last(), rows.drop_last());
        assert(rows[n].len() > 0);
        assert(rows =~= rows.drop_last().push(rows[n]));
    } else {
        assert(rows_of(lines) =~= rows);
    }
}

/// Only the words of a line matter, not what stands between them.
pub proof fn lemma_lines_by_words(lines: Seq<Seq<char>>, a: Seq<char>, b: Seq<char>)
    requires
        words_of(a) == words_of(b),
    ensures
        header_of(lines.push(a)) == header_of(lines.push(b)),
{
    assert(lines.push(a).drop_last() =~= lines);
    assert(lines.push(b).drop_last() =~= lines);
}

/// A header of no lines says nothing.
pub proof fn lemma_no_lines()
    ensures
        ({
            let h = header_of(Seq::<Seq<char>>::empty());
            &&& !h.ascii
            &&& !h.big_endian
            &&& h.count == 0
            &&& !h.in_vertex
            &&& h.props.len() == 0
            &&& h.unknown.len() == 0
        }),
{
}

/// A property under `vertex` adds one column at the end: of its name, and as large as its type, or
/// four bytes for a type of unknown size, which is noted. Nothing else changes; and elsewhere a
/// property changes nothing at all.
pub proof fn lemma_property_line(lines: Seq<Seq<char>>, ty: Seq<char>, name: Seq<char>)
    requires
        is_word(ty),
        is_word(name),
    ensures
        ({
            let line = "property"@ + seq![' '] + (ty + seq![' '] + name);
            let before = header_of(lines);
            let after = header_of(lines.push(line));
            let size = type_size_of(ty);
            &&& !before.in_vertex ==> after == before
            &&& before.in_vertex ==> {
                &&& after.props.len() == before.props.len() + 1
                &&& after.props.drop_last() == before.props
                &&& after.props.last().name == name
                &&& size is Some ==> after.props.last().size == size->0
                &&& size is None ==> after.props.last().size == 4
                &&& size is Some ==> after.unknown == before.unknown
                &&& size is None && before.unknown.contains(ty) ==> after.unknown == before.unknown
                &&& size is None && !before.unknown.contains(ty) ==> after.unknown
                    == before.unknown.push(ty)
                &&& after.ascii == before.ascii
                &&& after.big_endian == before.big_endian
                &&& after.count == before.count
                &&& after.in_vertex
            }
        }),
{
    let line = "property"@ + seq![' '] + (ty + seq![' '] + name);
    lemma_keywords();
    lemma_words_of_word(name);
    lemma_words_of_spaced(ty, name);
    lemma_words_of_spaced("property"@, ty + seq![' '] + name);
    assert(words_of(line) =~= seq!["property"@, ty, name]);
    assert(lines.push(line).drop_last() =~= lines);
    assert(lines.push(line).last() == line);
    let before = header_of(lines);
    let after = header_of(lines.push(line));
    if before.in_vertex {
        assert(after.props.drop_last() =~= before.props);
    }
}

/// An element begins with its line: `vertex` sets the number of vertices, or zero where it is no
/// number, and the properties that follow are its own; any other element only ends that.
pub proof fn lemma_element_line(lines: Seq<Seq<char>>, name: Seq<char>, number: Seq<char>)
    requires
        is_word(name),
        is_word(number),
    ensures
        ({
            let line = "element"@ + seq![' '] + (name + seq![' '] + number);
            let before = header_of(lines);
            let after = header_of(lines.push(line));
            let count = unsigned_of(number, usize::MAX as nat);
            &&& after.in_vertex == (name == "vertex"@)
            &&& name == "vertex"@ && count is Some ==> after.count == count->0
            &&& name == "vertex"@ && count is None ==> after.count == 0
            &&& name != "vertex"@ ==> after.count == before.count
            &&& after.props == before.props
            &&& after.unknown == before.unknown
            &&& after.ascii == before.ascii
            &&& after.big_endian == before.big_endian
        }),
{
    let line = "element"@ + seq![' '] + (name + seq![' '] + number);
    lemma_keywords();
    lemma_words_of_word(number);
    lemma_words_of_spaced(name, number);
    lemma_words_of_spaced("element"@, name + seq![' '] + number);
    assert(words_of(line) =~= seq!["element"@, name, number]);
    assert(lines.push(line).drop_last() =~= lines);
    assert(lines.push(line).last() == line);
}

/// The format is text where its word begins with `ascii`, and has the most significant byte first
/// where it begins with `binary_big`; what follows that word, and what was said before, does not
/// matter. Nothing else changes.
pub proof fn lemma_format_line(lines: Seq<Seq<char>>, format: Seq<char>, more: Seq<char>)
    requires
        is_word(format),
    ensures
        ({
            let line = "format"@ + seq![' '] + (format + seq![' '] + more);
            let before = header_of(lines);
            let after = header_of(lines.push(line));
            &&& after.ascii <==> format.len() >= 5 && format.take(5) == "ascii"@
            &&& after.big_endian <==> format.len() >= 10 && format.take(10) == "binary_big"@
            &&& after.props == before.props
            &&& after.unknown == before.unknown
            &&& after.count == before.count
            &&& after.in_vertex == before.in_vertex
        }),
{
    let line = "format"@ + seq![' '] + (format + seq![' '] + more);
    reveal_strlit("ascii");
    reveal_strlit("binary_big");
    lemma_keywords();
    lemma_words_of_spaced(format, more);
    lemma_words_of_spaced("format"@, format + seq![' '] + more);
    let words = words_of(line);
    assert(words[0] == "format"@ && words[1] == format && words.len() >= 2);
    assert(lines.push(line).drop_last() =~= lines);
    assert(lines.push(line).last() == line);
}

/// A line of a known kind that has not as many words as it should says nothing: a property or an
/// element of other than three, a format of one.
pub proof fn lemma_malformed_line(lines: Seq<Seq<char>>, line: Seq<char>)
    requires
        words_of(line).len() > 0 ==> {
            ||| words_of(line)[0] == "property"@ && words_of(line).len() != 3
            ||| words_of(line)[0] == "element"@ && words_of(line).len() != 3
            ||| words_of(line)[0] == "format"@ && words_of(line).len() == 1
        },
    ensures
        header_of(lines.push(line)) == header_of(lines),
{
    lemma_keywords();
    assert(lines.push(line).drop_last() =~= lines);
    assert(lines.push(line).last() == line);
}

/// The words that begin the lines of a header are three different words.
proof fn lemma_keywords()
    ensures
        is_word("property"@),
        is_word("element"@),
        is_word("format"@),
        "property"@ != "element"@,
        "property"@ != "format"@,
        "element"@ != "format"@,
{
    reveal_strlit("property");
    reveal_strlit("element");
    reveal_strlit("format");
    assert("property"@.len() == 8 && "element"@.len() == 7 && "format"@.len() == 6);
}

/// No other types have a known size.
pub proof fn lemma_known_types(ty: Seq<char>)
    requires
        type_size_of(ty) is Some,
    ensures
        type_size_of(ty)->0 == 1 ==> ty == "char"@ || ty == "uchar"@ || ty == "int8"@ || ty
            == "uint8"@,
        type_size_of(ty)->0 == 2 ==> ty == "short"@ || ty == "ushort"@ || ty == "int16"@ || ty
            == "uint16"@ || ty == "half"@ || ty == "float16"@,
        type_size_of(ty)->0 == 4 ==> ty == "int"@ || ty == "uint"@ || ty == "int32"@ || ty
            == "uint32"@ || ty == "float"@ || ty == "float32"@,
        type_size_of(ty)->0 == 8 ==> ty == "double"@ || ty == "float64"@,
        type_size_of(ty)->0 == 1 || type_size_of(ty)->0 == 2 || type_size_of(ty)->0 == 4
            || type_size_of(ty)->0 == 8,
{
}

/// The end marker is the text `end_header` and a line feed, and is found where it stands.
pub proof fn lemma_marker(bytes: Seq<u8>, at: int)
    ensures
        marker().len() == 11,
        "end_header"@.len() == 10,
        forall|i: int| 0 <= i < 10 ==> #[trigger] marker()[i] == "end_header"@[i] as u8,
        marker()[10] == 10,
        marker_at(bytes, at) <==> 0 <= at && at + 11 <= bytes.len() && forall|i: int|
            0 <= i < 11 ==> bytes[at + i] == #[trigger] marker()[i],
{
    reveal_strlit("end_header");
    if marker_at(bytes, at) {
        let part = bytes.subrange(at, at + 11);
        assert forall|i: int| 0 <= i < 11 implies bytes[at + i] == #[trigger] marker()[i] by {
            assert(part[i] == bytes[at + i]);
        }
    }
    if 0 <= at && at + 11 <= bytes.len() && forall|i: int|
        0 <= i < 11 ==> bytes[at + i] == #[trigger] marker()[i] {
        assert(bytes.subrange(at, at + 11) =~= marker());
    }
}

/// The header of a file is what its text before the end marker says, and the body begins right
/// behind the marker.
pub proof fn lemma_header_and_body(bytes: Seq<u8>)
    requires
        header_end(bytes) is Some,
    ensures
        header_in(bytes) == header_of(lines_of(text_of(bytes.take(header_end(bytes)->0 as int)))),
        header_before(bytes, header_end(bytes)->0) == header_in(bytes),
        body_start(bytes) == header_end(bytes)->0 + 11,
{
}

/// The models of a header, a property, a layout and of lists have what they hold, each as it is.
pub proof fn lemma_models(
    header: Header,
    property: Property,
    layout: Layout,
    props: Seq<Property>,
    texts: Seq<Vec<char>>,
)
    ensures
        header@.ascii == header.ascii,
        header@.big_endian == header.big_endian,
        header@.count == header.count,
        header@.in_vertex == header.in_vertex,
        header@.props == props_model(header.props@),
        header@.unknown == texts_model(header.unknown@),
        property@.name == property.name@,
        property@.size == property.size,
        layout@ == props_model(layout.props@),
        props_model(props).len() == props.len(),
        forall|i: int| 0 <= i < props.len() ==> #[trigger] props_model(props)[i] == props[i]@,
        texts_model(texts).len() == texts.len(),
        forall|i: int| 0 <= i < texts.len() ==> #[trigger] texts_model(texts)[i] == texts[i]@,
{
}

} // verus!
