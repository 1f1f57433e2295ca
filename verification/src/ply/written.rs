//! Binary `.ply` files as they are written, and that they are read back whole.

use vstd::prelude::*;
use vstd::utf8::{encode_utf8, is_ascii_chars, is_ascii_chars_encode_utf8};

use crate::ply::body::word_at;
use crate::ply::error::PlyError;
use crate::ply::header::{
    empty_header, header_end, header_of, marker, marker_at, type_size_of, HeaderModel,
    PropertyModel,
};
use crate::ply::laws::{
    lemma_at_least_place, lemma_column_is_first, lemma_full_sh_by_number, lemma_header_is_read,
    lemma_rest_by_number,
};
use crate::ply::layout::{
    column, gaussian_of, is_read, lemma_sh_place, offset, per_channel, required, rest_columns,
    rest_number, rest_pairs, sh_column, sh_of, stride, value_named,
};
use crate::ply::{
    binary_gaussians, body_start, header_in, is_reading, lemma_none_missing, record_gaussian,
    record_value, verdict_on, Ply, Verdict,
};
use crate::scene::{gaussians_model, GaussianModel};
use crate::text::{
    all_digits, begins_with, decimal_of, is_line, is_word, joined, lemma_decimal_digits,
    lemma_decimal_round_trip, lemma_lines_of_joined, lemma_words_of_spaced, lemma_words_of_word,
    lines_of, whitespace, words_of,
};

verus! {

/// Whether a gaussian has as many numbers as it should, and has higher color coefficients or not.
pub open spec fn is_shaped(g: GaussianModel, with_sh: bool) -> bool {
    &&& g.mean.len() == 3
    &&& g.log_scale.len() == 3
    &&& g.quat.len() == 4
    &&& g.color_dc.len() == 3
    &&& g.sh is Some <==> with_sh
    &&& g.sh is Some ==> g.sh->0.len() == 45
}

/// All numbers of a gaussian: those that every file has, and then the higher color coefficients.
pub open spec fn numbers_of(g: GaussianModel) -> Seq<u32> {
    let plain = (g.mean + g.log_scale + g.quat + g.color_dc).push(g.opacity_raw);
    match g.sh {
        Some(sh) => plain + sh,
        None => plain,
    }
}

/// How many numbers a gaussian has.
pub open spec fn number_count(with_sh: bool) -> nat {
    if with_sh {
        59
    } else {
        14
    }
}

/// The name of the property for the number at `f` among all numbers of a gaussian.
pub open spec fn field_name(f: nat) -> Seq<char> {
    if f < 14 {
        required()[f as int]
    } else {
        "f_rest_"@ + decimal_of((f - 14) as nat)
    }
}

/// Whether a vertex with its properties in this order has each number of a gaussian once, and
/// nothing else.
pub open spec fn is_field_order(order: Seq<nat>, with_sh: bool) -> bool {
    &&& order.no_duplicates()
    &&& forall|f: nat| #[trigger] order.contains(f) <==> f < number_count(with_sh)
}

/// The properties of a vertex, all of type `float`, in this order.
pub open spec fn float_props(order: Seq<nat>) -> Seq<PropertyModel> {
    Seq::new(order.len(), |i: int| PropertyModel { name: field_name(order[i]), size: 4 })
}

/// The bytes of a word, least significant byte first.
pub open spec fn word_bytes(word: u32) -> Seq<u8> {
    seq![
        (word % 0x100) as u8,
        (word / 0x100 % 0x100) as u8,
        (word / 0x1_0000 % 0x100) as u8,
        (word / 0x100_0000) as u8,
    ]
}

/// The record of a gaussian, as far as its first `n` properties: their numbers, in this order.
pub open spec fn record_bytes(order: Seq<nat>, g: GaussianModel, n: nat) -> Seq<u8>
    decreases n,
{
    if n == 0 {
        seq![]
    } else {
        record_bytes(order, g, (n - 1) as nat) + word_bytes(numbers_of(g)[order[n - 1] as int])
    }
}

/// The records of the first `n` gaussians, one behind the other.
pub open spec fn body_bytes(order: Seq<nat>, gaussians: Seq<GaussianModel>, n: nat) -> Seq<u8>
    decreases n,
{
    if n == 0 {
        seq![]
    } else {
        body_bytes(order, gaussians, (n - 1) as nat) + record_bytes(
            order,
            gaussians[n - 1],
            order.len(),
        )
    }
}

/// Whether a header says that the body has `count` records of these properties, all of type
/// `float`, with the least significant byte first.
pub open spec fn declares(h: HeaderModel, order: Seq<nat>, count: nat) -> bool {
    &&& !h.ascii
    &&& !h.big_endian
    &&& h.count == count
    &&& h.props == float_props(order)
}

/// The file of a header, the end marker and the records of these gaussians.
pub open spec fn file_bytes(
    header: Seq<char>,
    order: Seq<nat>,
    gaussians: Seq<GaussianModel>,
) -> Seq<u8> {
    encode_utf8(header) + marker() + body_bytes(order, gaussians, gaussians.len())
}

proof fn lemma_word_read(bytes: Seq<u8>, at: int, word: u32)
    requires
        0 <= at,
        at + 4 <= bytes.len(),
        bytes.subrange(at, at + 4) == word_bytes(word),
    ensures
        word_at(bytes, at) == word,
{
    let part = bytes.subrange(at, at + 4);
    assert(part[0] == bytes[at] && part[1] == bytes[at + 1] && part[2] == bytes[at + 2] && part[3]
        == bytes[at + 3]);
}

/// No two of the properties that every file must have share a name, and none is named like a
/// higher color coefficient.
proof fn lemma_required_names()
    ensures
        required().no_duplicates(),
        forall|i: int| 0 <= i < 14 ==> rest_number(#[trigger] required()[i]) is None,
{
    reveal_strlit("f_rest_");
    reveal_strlit("x");
    reveal_strlit("y");
    reveal_strlit("z");
    reveal_strlit("scale_0");
    reveal_strlit("scale_1");
    reveal_strlit("scale_2");
    reveal_strlit("rot_0");
    reveal_strlit("rot_1");
    reveal_strlit("rot_2");
    reveal_strlit("rot_3");
    reveal_strlit("f_dc_0");
    reveal_strlit("f_dc_1");
    reveal_strlit("f_dc_2");
    reveal_strlit("opacity");
    let names = required();
    let prefix = "f_rest_"@;
    assert forall|i: int| 0 <= i < 14 implies rest_number(#[trigger] names[i]) is None by {
        assert(names[i].len() >= 7 ==> names[i][0] != prefix[0]);
        if names[i].len() >= 7 {
            assert(names[i].take(7)[0] == names[i][0]);
        }
    }
    assert forall|i: int, j: int| 0 <= i < 14 && 0 <= j < 14 && i != j implies names[i]
        != names[j] by {
        let key = |n: Seq<char>| (n.len(), n[0], n[n.len() - 1]);
        assert(key(names[i]) != key(names[j]));
    }
}

proof fn lemma_rest_name(k: nat)
    requires
        k <= u32::MAX,
    ensures
        rest_number("f_rest_"@ + decimal_of(k)) == Some(k),
{
    reveal_strlit("f_rest_");
    let name = "f_rest_"@ + decimal_of(k);
    assert(name.take(7) =~= "f_rest_"@);
    assert(name.skip(7) =~= decimal_of(k));
    lemma_decimal_round_trip(k, u32::MAX as nat);
}

/// The number of the coefficient that a property is named for.
proof fn lemma_field_number(f: nat)
    requires
        f < 59,
    ensures
        f < 14 ==> rest_number(field_name(f)) is None,
        f >= 14 ==> rest_number(field_name(f)) == Some((f - 14) as nat),
{
    lemma_required_names();
    if f >= 14 {
        lemma_rest_name((f - 14) as nat);
    }
}

proof fn lemma_field_names_differ(a: nat, b: nat)
    requires
        a < 59,
        b < 59,
        field_name(a) == field_name(b),
    ensures
        a == b,
{
    lemma_required_names();
    lemma_field_number(a);
    lemma_field_number(b);
}

/// The property of a number stands where the number stands in the order.
proof fn lemma_field_column(order: Seq<nat>, with_sh: bool, c: int)
    requires
        is_field_order(order, with_sh),
        0 <= c < order.len(),
    ensures
        column(float_props(order), field_name(order[c])) == Some(c as nat),
        order[c] < number_count(with_sh),
{
    let props = float_props(order);
    let name = field_name(order[c]);
    assert(order.contains(order[c]));
    lemma_column_is_first(props, name);
    assert(props[c].name == name);
    let found = column(props, name)->0 as int;
    assert(order.contains(order[found]));
    lemma_field_names_differ(order[found], order[c]);
}

proof fn lemma_float_offset(order: Seq<nat>, n: nat)
    requires
        n <= order.len(),
    ensures
        offset(float_props(order), n) == 4 * n,
    decreases n,
{
    if n > 0 {
        lemma_float_offset(order, (n - 1) as nat);
    }
}

proof fn lemma_record_word(order: Seq<nat>, g: GaussianModel, n: nat, c: int)
    requires
        0 <= c < n,
    ensures
        record_bytes(order, g, n).len() == 4 * n,
        record_bytes(order, g, n).subrange(4 * c, 4 * c + 4) == word_bytes(
            numbers_of(g)[order[c] as int],
        ),
    decreases n,
{
    let m = (n - 1) as nat;
    let before = record_bytes(order, g, m);
    let all = record_bytes(order, g, n);
    lemma_record_len(order, g, m);
    lemma_record_len(order, g, n);
    if c == m {
        assert(all.subrange(4 * c, 4 * c + 4) =~= word_bytes(numbers_of(g)[order[c] as int]));
    } else {
        lemma_record_word(order, g, m, c);
        assert(all.subrange(4 * c, 4 * c + 4) =~= before.subrange(4 * c, 4 * c + 4));
    }
}

proof fn lemma_record_len(order: Seq<nat>, g: GaussianModel, n: nat)
    ensures
        record_bytes(order, g, n).len() == 4 * n,
    decreases n,
{
    if n > 0 {
        lemma_record_len(order, g, (n - 1) as nat);
    }
}

proof fn lemma_body_len(order: Seq<nat>, gaussians: Seq<GaussianModel>, n: nat)
    ensures
        body_bytes(order, gaussians, n).len() == n * (4 * order.len()),
    decreases n,
{
    let size = 4 * order.len();
    if n == 0 {
        assert(n * size == 0) by (nonlinear_arith)
            requires
                n == 0,
        ;
    } else {
        let m = (n - 1) as nat;
        lemma_body_len(order, gaussians, m);
        lemma_record_len(order, gaussians[n - 1], order.len());
        assert(m * size + size == n * size) by (nonlinear_arith)
            requires
                m == n - 1,
        ;
    }
}

proof fn lemma_body_record(order: Seq<nat>, gaussians: Seq<GaussianModel>, n: nat, i: int)
    requires
        0 <= i < n,
    ensures
        ({
            let size = 4 * order.len();
            &&& 0 <= i * size
            &&& i * size + size <= n * size
            &&& body_bytes(order, gaussians, n).len() == n * size
            &&& body_bytes(order, gaussians, n).subrange(i * size, i * size + size)
                == record_bytes(order, gaussians[i], order.len())
        }),
    decreases n,
{
    let size = 4 * order.len();
    let m = (n - 1) as nat;
    let before = body_bytes(order, gaussians, m);
    let all = body_bytes(order, gaussians, n);
    lemma_body_len(order, gaussians, m);
    lemma_body_len(order, gaussians, n);
    lemma_record_len(order, gaussians[n - 1], order.len());
    assert(0 <= i * size && i * size + size <= n * size) by (nonlinear_arith)
        requires
            0 <= i < n,
            size >= 0,
    ;
    if i == m {
        assert(all.subrange(i * size, i * size + size) =~= record_bytes(
            order,
            gaussians[i],
            order.len(),
        ));
    } else {
        lemma_body_record(order, gaussians, m, i);
        assert(all.subrange(i * size, i * size + size) =~= before.subrange(
            i * size,
            i * size + size,
        ));
    }
}

/// A number of a record is read as it was written.
proof fn lemma_written_value(
    file: Seq<u8>,
    start: nat,
    order: Seq<nat>,
    gaussians: Seq<GaussianModel>,
    i: int,
    c: int,
)
    requires
        start <= file.len(),
        file.skip(start as int) == body_bytes(order, gaussians, gaussians.len()),
        0 <= i < gaussians.len(),
        0 <= c < order.len(),
    ensures
        record_value(file, float_props(order), start, i as nat, c as nat) == numbers_of(
            gaussians[i],
        )[order[c] as int],
{
    let body = body_bytes(order, gaussians, gaussians.len());
    let size = 4 * order.len();
    let record = record_bytes(order, gaussians[i], order.len());
    let word = numbers_of(gaussians[i])[order[c] as int];
    let at = start + i * size + 4 * c;
    lemma_float_offset(order, order.len());
    lemma_float_offset(order, c as nat);
    lemma_body_record(order, gaussians, gaussians.len(), i);
    lemma_record_word(order, gaussians[i], order.len(), c);
    assert(stride(float_props(order)) == size);
    assert(file.len() == start + body.len());
    let inside = i * size + 4 * c;
    assert(file.subrange(at, at + 4) =~= file.skip(start as int).subrange(inside, inside + 4));
    assert(body.subrange(inside, inside + 4) =~= body.subrange(
        i * size,
        i * size + size,
    ).subrange(4 * c, 4 * c + 4));
    assert(record.subrange(4 * c, 4 * c + 4) == word_bytes(word));
    lemma_word_read(file, at, word);
}

/// Where a file has all higher color coefficients, the one of number `k` is at place `k`.
proof fn lemma_rest_places(order: Seq<nat>, k: nat)
    requires
        is_field_order(order, true),
        k < 45,
    ensures
        ({
            let pairs = rest_pairs(float_props(order), order.len());
            &&& k < pairs.len()
            &&& pairs[k as int].0 == k
        }),
    decreases k,
{
    let props = float_props(order);
    let pairs = rest_pairs(props, order.len());
    lemma_rest_by_number(props, order.len());
    lemma_rest_distinct(order, true);
    assert(order.contains(k + 14));
    let c = choose|c: int| 0 <= c < order.len() && order[c] == k + 14;
    lemma_field_number(k + 14);
    assert(rest_number(props[c].name) == Some(k));
    assert(pairs.contains((k, c as nat)));
    let j = choose|j: int| 0 <= j < pairs.len() && pairs[j] == (k, c as nat);
    lemma_at_least_place(pairs, j);
    if k > 0 {
        let m = (k - 1) as nat;
        lemma_rest_places(order, m);
        if j < m {
            assert(pairs[j].0 < pairs[m as int].0);
        }
        assert(j != m);
    }
}

/// The higher color coefficients of a written file have different numbers below 45, and stand in
/// the properties of these numbers.
proof fn lemma_rest_distinct(order: Seq<nat>, with_sh: bool)
    requires
        is_field_order(order, with_sh),
    ensures
        ({
            let pairs = rest_pairs(float_props(order), order.len());
            &&& !with_sh ==> pairs.len() == 0
            &&& forall|i: int|
                0 <= i < pairs.len() ==> {
                    &&& (#[trigger] pairs[i]).0 < 45
                    &&& pairs[i].1 < order.len()
                    &&& order[pairs[i].1 as int] == pairs[i].0 + 14
                }
            &&& forall|i: int, j: int|
                0 <= i < j < pairs.len() ==> (#[trigger] pairs[i]).0 < (#[trigger] pairs[j]).0
        }),
{
    let props = float_props(order);
    let pairs = rest_pairs(props, order.len());
    lemma_rest_by_number(props, order.len());
    assert forall|i: int| 0 <= i < pairs.len() implies {
        &&& with_sh
        &&& (#[trigger] pairs[i]).0 < 45
        &&& pairs[i].1 < order.len()
        &&& order[pairs[i].1 as int] == pairs[i].0 + 14
    } by {
        let (k, c) = pairs[i];
        assert(pairs.contains((k, c)));
        assert(order.contains(order[c as int]));
        assert(props[c as int].name == field_name(order[c as int]));
        lemma_field_number(order[c as int]);
    }
    if pairs.len() > 0 {
        assert(pairs[0].0 < 45);
    }
}

/// The numbers of a gaussian are read from their properties.
proof fn lemma_gaussian_of_fields(
    order: Seq<nat>,
    with_sh: bool,
    g: GaussianModel,
    read: spec_fn(nat) -> u32,
)
    requires
        is_field_order(order, with_sh),
        is_shaped(g, with_sh),
        forall|c: nat|
            c < order.len() ==> #[trigger] read(c) == numbers_of(g)[order[c as int] as int],
    ensures
        gaussian_of(float_props(order), read) == g,
{
    let props = float_props(order);
    let all = numbers_of(g);
    assert forall|f: int| 0 <= f < 14 implies value_named(
        props,
        read,
        #[trigger] required()[f],
    ) == all[f] by {
        assert(order.contains(f as nat));
        let c = choose|c: int| 0 <= c < order.len() && order[c] == f as nat;
        lemma_field_column(order, with_sh, c);
        assert(read(c as nat) == all[f]);
    }
    let made = gaussian_of(props, read);
    let names = required();
    assert(names[0] == "x"@ && names[1] == "y"@ && names[2] == "z"@);
    assert(names[3] == "scale_0"@ && names[4] == "scale_1"@ && names[5] == "scale_2"@);
    assert(names[6] == "rot_0"@ && names[7] == "rot_1"@ && names[8] == "rot_2"@ && names[9]
        == "rot_3"@);
    assert(names[10] == "f_dc_0"@ && names[11] == "f_dc_1"@ && names[12] == "f_dc_2"@ && names[13]
        == "opacity"@);
    assert(made.mean =~= g.mean);
    assert(made.log_scale =~= g.log_scale);
    assert(made.quat =~= g.quat);
    assert(made.color_dc =~= g.color_dc);
    assert(made.opacity_raw == g.opacity_raw);
    lemma_rest_distinct(order, with_sh);
    let pairs = rest_pairs(props, props.len());
    if with_sh {
        lemma_rest_places(order, 44);
        if pairs.len() > 45 {
            assert(pairs[44].0 < pairs[45].0);
        }
        assert forall|m: int| 0 <= m < 45 implies sh_of(props, read)->0[m] == g.sh->0[m] by {
            lemma_full_sh_by_number(props, read, m);
            assert(read(pairs[m].1) == all[order[pairs[m].1 as int] as int]);
        }
        lemma_full_sh_by_number(props, read, 0);
        assert(sh_of(props, read)->0 =~= g.sh->0);
    } else {
        assert(rest_columns(props).len() == 0);
    }
    assert(made =~= g);
}

/// A written file is read back whole: a file of a header, which declares the properties of a
/// gaussian in any order, the end marker and the records of gaussians is a binary file of exactly
/// these gaussians, with all their numbers as they are.
pub proof fn lemma_written_file_is_read(
    header: Seq<char>,
    order: Seq<nat>,
    with_sh: bool,
    gaussians: Seq<GaussianModel>,
)
    requires
        is_field_order(order, with_sh),
        forall|i: int| 0 <= i < gaussians.len() ==> is_shaped(#[trigger] gaussians[i], with_sh),
        declares(header_of(lines_of(header)), order, gaussians.len()),
        forall|i: int|
            0 <= i < encode_utf8(header).len() ==> !#[trigger] marker_at(
                file_bytes(header, order, gaussians),
                i,
            ),
    ensures
        ({
            let file = file_bytes(header, order, gaussians);
            &&& header_end(file) is Some
            &&& verdict_on(header_in(file), body_start(file), file.len()) == Verdict::Binary
            &&& binary_gaussians(file, header_in(file), body_start(file)) == gaussians
            &&& forall|ply: Result<Ply, PlyError>| #[trigger]
                is_reading(ply, file, header_in(file), body_start(file)) ==> {
                    &&& ply is Ok
                    &&& ply->Ok_0 is Gaussians
                    &&& gaussians_model(ply->Ok_0->Gaussians_0@) == gaussians
                }
        }),
{
    let file = file_bytes(header, order, gaussians);
    let body = body_bytes(order, gaussians, gaussians.len());
    let props = float_props(order);
    let size = 4 * order.len();
    lemma_header_is_read(header, body);
    let start = body_start(file);
    let h = header_in(file);
    assert(marker().len() == 11);
    assert(start <= file.len());
    lemma_body_len(order, gaussians, gaussians.len());
    lemma_float_offset(order, order.len());
    assert(stride(props) == size);
    assert(file.len() == start + gaussians.len() * size);
    assert forall|m: int| 0 <= m < 14 implies column(props, #[trigger] required()[m]) is Some by {
        assert(order.contains(m as nat));
        let c = choose|c: int| 0 <= c < order.len() && order[c] == m as nat;
        lemma_field_column(order, with_sh, c);
    }
    lemma_none_missing(props, 0);
    if gaussians.len() > 0 {
        assert forall|col: nat| #[trigger] is_read(props, col) implies start + (gaussians.len() - 1)
            * stride(props) + offset(props, col) + 4 <= file.len() by {
            lemma_read_column(order, with_sh, col);
            lemma_float_offset(order, col);
            assert((gaussians.len() - 1) * size + size == gaussians.len() * size)
                by (nonlinear_arith);
        }
    }
    assert forall|i: int| 0 <= i < gaussians.len() implies #[trigger] record_gaussian(
        file,
        props,
        start,
        i as nat,
    ) == gaussians[i] by {
        let read = |col: nat| record_value(file, props, start, i as nat, col);
        assert forall|c: nat| c < order.len() implies #[trigger] read(c) == numbers_of(
            gaussians[i],
        )[order[c as int] as int] by {
            lemma_written_value(file, start, order, gaussians, i, c as int);
        }
        lemma_gaussian_of_fields(order, with_sh, gaussians[i], read);
    }
    assert(binary_gaussians(file, h, start) =~= gaussians);
}

/// What is read of a record is one of its properties.
proof fn lemma_read_column(order: Seq<nat>, with_sh: bool, col: nat)
    requires
        is_field_order(order, with_sh),
        is_read(float_props(order), col),
    ensures
        col < order.len(),
{
    let props = float_props(order);
    if exists|n: int| 0 <= n < 14 && column(props, #[trigger] required()[n]) == Some(col) {
        let n = choose|n: int| 0 <= n < 14 && column(props, #[trigger] required()[n]) == Some(col);
        lemma_column_is_first(props, required()[n]);
    } else {
        let m = choose|m: int|
            0 <= m < 45 && m % 15 < per_channel(props) && #[trigger] sh_column(props, m) == col;
        lemma_sh_place(props, m);
    }
}

/// The lines before the properties of a plain header.
pub open spec fn first_lines(count: nat) -> Seq<Seq<char>> {
    seq![
        "ply"@,
        "format"@ + seq![' '] + ("binary_little_endian"@ + seq![' '] + "1.0"@),
        "element"@ + seq![' '] + ("vertex"@ + seq![' '] + decimal_of(count)),
    ]
}

/// The line that declares a property of type `float`.
pub open spec fn property_line(name: Seq<char>) -> Seq<char> {
    "property"@ + seq![' '] + ("float"@ + seq![' '] + name)
}

/// The lines of a plain header for `count` vertices, as far as its first `n` properties.
pub open spec fn header_lines(order: Seq<nat>, count: nat, n: nat) -> Seq<Seq<char>> {
    first_lines(count) + Seq::new(n, |i: int| property_line(field_name(order[i])))
}

/// A plain header for `count` vertices: the format, one element, and its properties.
pub open spec fn header_text(order: Seq<nat>, count: nat) -> Seq<char> {
    joined(header_lines(order, count, order.len()))
}

/// Whether `text` can stand at the end of a line of a plain header: one word of ASCII characters,
/// that does not end like the end marker.
spec fn is_tail(text: Seq<char>) -> bool {
    &&& is_word(text)
    &&& is_ascii_chars(text)
    &&& text.last() != 'r'
}

proof fn lemma_digits_tail(digits: Seq<char>)
    requires
        digits.len() > 0,
        all_digits(digits),
    ensures
        is_tail(digits),
{
    assert forall|i: int| 0 <= i < digits.len() implies !whitespace(#[trigger] digits[i]) by {
        assert('0' <= digits[i] <= '9');
    }
    assert forall|i: int| 0 <= i < digits.len() implies '\0' <= #[trigger] digits[i] <= '\u{7f}' by {
        assert('0' <= digits[i] <= '9');
    }
    assert('0' <= digits[digits.len() - 1] <= '9');
}

proof fn lemma_field_tail(f: nat)
    ensures
        is_tail(field_name(f)),
{
    if f < 14 {
        reveal_strlit("x");
        reveal_strlit("y");
        reveal_strlit("z");
        reveal_strlit("scale_0");
        reveal_strlit("scale_1");
        reveal_strlit("scale_2");
        reveal_strlit("rot_0");
        reveal_strlit("rot_1");
        reveal_strlit("rot_2");
        reveal_strlit("rot_3");
        reveal_strlit("f_dc_0");
        reveal_strlit("f_dc_1");
        reveal_strlit("f_dc_2");
        reveal_strlit("opacity");
    } else {
        reveal_strlit("f_rest_");
        let digits = decimal_of((f - 14) as nat);
        lemma_decimal_digits((f - 14) as nat);
        lemma_digits_tail(digits);
        let name = "f_rest_"@ + digits;
        assert forall|i: int| 0 <= i < name.len() implies !whitespace(#[trigger] name[i]) && '\0'
            <= name[i] <= '\u{7f}' by {
            if i >= 7 {
                assert(name[i] == digits[i - 7]);
            }
        }
        assert(name.last() == digits.last());
    }
}

/// Whether `line` can be a line of a plain header.
spec fn is_plain_line(line: Seq<char>) -> bool {
    &&& is_line(line)
    &&& is_ascii_chars(line)
    &&& line.len() > 0
    &&& line.last() != 'r'
}

proof fn lemma_plain_line(a: Seq<char>, b: Seq<char>, tail: Seq<char>)
    requires
        is_word(a),
        is_ascii_chars(a),
        is_word(b),
        is_ascii_chars(b),
        is_tail(tail),
    ensures
        is_plain_line(a + seq![' '] + (b + seq![' '] + tail)),
        words_of(a + seq![' '] + (b + seq![' '] + tail)) == seq![a, b, tail],
{
    let end = b + seq![' '] + tail;
    let line = a + seq![' '] + end;
    lemma_words_of_word(tail);
    lemma_words_of_spaced(b, tail);
    lemma_words_of_spaced(a, end);
    assert(words_of(line) =~= seq![a, b, tail]);
    assert forall|i: int| 0 <= i < end.len() implies end[i] != '\n' && '\0' <= #[trigger] end[i]
        <= '\u{7f}' by {
        if i < b.len() {
            assert(end[i] == b[i]);
            assert(!whitespace(b[i]));
        } else if i > b.len() {
            assert(end[i] == tail[i - b.len() - 1]);
            assert(!whitespace(tail[i - b.len() - 1]));
        }
    }
    assert forall|i: int| 0 <= i < line.len() implies line[i] != '\n' && '\0' <= #[trigger] line[i]
        <= '\u{7f}' by {
        if i < a.len() {
            assert(line[i] == a[i]);
            assert(!whitespace(a[i]));
        } else if i > a.len() {
            assert(line[i] == end[i - a.len() - 1]);
        }
    }
    assert(line.last() == tail.last());
    assert(!whitespace(tail[tail.len() - 1]));
}

/// What the words of a plain header's lines are.
proof fn lemma_header_words(count: nat, name: Seq<char>)
    requires
        is_tail(name),
    ensures
        forall|i: int| 0 <= i < 3 ==> is_plain_line(#[trigger] first_lines(count)[i]),
        is_plain_line(property_line(name)),
        words_of(first_lines(count)[0]) == seq!["ply"@],
        words_of(first_lines(count)[1]) == seq!["format"@, "binary_little_endian"@, "1.0"@],
        words_of(first_lines(count)[2]) == seq!["element"@, "vertex"@, decimal_of(count)],
        words_of(property_line(name)) == seq!["property"@, "float"@, name],
{
    reveal_strlit("ply");
    reveal_strlit("format");
    reveal_strlit("binary_little_endian");
    reveal_strlit("1.0");
    reveal_strlit("element");
    reveal_strlit("vertex");
    reveal_strlit("property");
    reveal_strlit("float");
    lemma_words_of_word("ply"@);
    lemma_plain_line("format"@, "binary_little_endian"@, "1.0"@);
    lemma_decimal_digits(count);
    lemma_digits_tail(decimal_of(count));
    lemma_plain_line("element"@, "vertex"@, decimal_of(count));
    lemma_plain_line("property"@, "float"@, name);
    assert(is_plain_line("ply"@));
}

proof fn lemma_float_size()
    ensures
        type_size_of("float"@) == Some(4nat),
{
    reveal_strlit("char");
    reveal_strlit("uchar");
    reveal_strlit("int8");
    reveal_strlit("uint8");
    reveal_strlit("short");
    reveal_strlit("ushort");
    reveal_strlit("int16");
    reveal_strlit("uint16");
    reveal_strlit("half");
    reveal_strlit("float16");
    reveal_strlit("float");
    let ty = "float"@;
    assert(ty.len() == 5 && ty[0] == 'f');
    assert("uchar"@[0] == 'u' && "uint8"@[0] == 'u' && "short"@[0] == 's' && "int16"@[0] == 'i');
    assert("char"@.len() == 4 && "int8"@.len() == 4 && "half"@.len() == 4);
    assert("ushort"@.len() == 6 && "uint16"@.len() == 6 && "float16"@.len() == 7);
}

/// What the first lines of a plain header say.
proof fn lemma_first_lines_say(count: nat)
    requires
        count <= usize::MAX,
    ensures
        header_of(first_lines(count)) == (HeaderModel { in_vertex: true, count, ..empty_header() }),
{
    let lines = first_lines(count);
    lemma_field_tail(0);
    lemma_header_words(count, field_name(0));
    reveal_strlit("format");
    reveal_strlit("element");
    reveal_strlit("property");
    reveal_strlit("ascii");
    reveal_strlit("binary_big");
    reveal_strlit("binary_little_endian");
    let two = lines.drop_last();
    let one = two.drop_last();
    assert(one.drop_last() =~= Seq::<Seq<char>>::empty());
    assert(header_of(one.drop_last()) == empty_header());
    assert(one.last() == lines[0]);
    assert(header_of(one) == empty_header());
    assert(two.last() == lines[1]);
    let format = "binary_little_endian"@;
    assert(!begins_with(format, "ascii"@)) by {
        assert(format.take(5)[0] == 'b');
        assert("ascii"@[0] == 'a');
    }
    assert(!begins_with(format, "binary_big"@)) by {
        assert(format.take(10)[7] == 'l');
        assert("binary_big"@[7] == 'b');
    }
    assert(header_of(two) =~= empty_header());
    assert(lines.last() == lines[2]);
    lemma_decimal_round_trip(count, usize::MAX as nat);
    assert("element"@.len() != "format"@.len());
}

/// What a plain header says.
proof fn lemma_header_lines_say(order: Seq<nat>, count: nat, n: nat)
    requires
        count <= usize::MAX,
        n <= order.len(),
    ensures
        header_of(header_lines(order, count, n)) == (HeaderModel {
            in_vertex: true,
            count,
            props: float_props(order).take(n as int),
            ..empty_header()
        }),
    decreases n,
{
    let lines = header_lines(order, count, n);
    lemma_first_lines_say(count);
    if n == 0 {
        assert(lines =~= first_lines(count));
        assert(float_props(order).take(0) =~= Seq::<PropertyModel>::empty());
    } else {
        let m = (n - 1) as nat;
        let name = field_name(order[m as int]);
        lemma_header_lines_say(order, count, m);
        lemma_field_tail(order[m as int]);
        lemma_header_words(count, name);
        lemma_float_size();
        assert(lines.drop_last() =~= header_lines(order, count, m));
        assert(lines.last() == property_line(name));
        reveal_strlit("format");
        reveal_strlit("element");
        reveal_strlit("property");
        assert("property"@.len() != "format"@.len() && "property"@.len() != "element"@.len());
        assert(float_props(order).take(n as int) =~= float_props(order).take(m as int).push(
            PropertyModel { name, size: 4 },
        ));
    }
}

proof fn lemma_header_lines_plain(order: Seq<nat>, count: nat)
    ensures
        forall|i: int|
            0 <= i < header_lines(order, count, order.len()).len() ==> is_plain_line(
                #[trigger] header_lines(order, count, order.len())[i],
            ),
{
    let lines = header_lines(order, count, order.len());
    assert forall|i: int| 0 <= i < lines.len() implies is_plain_line(#[trigger] lines[i]) by {
        if i < 3 {
            lemma_field_tail(0);
            lemma_header_words(count, field_name(0));
            assert(lines[i] == first_lines(count)[i]);
        } else {
            let f = order[i - 3];
            lemma_field_tail(f);
            lemma_header_words(count, field_name(f));
            assert(lines[i] == property_line(field_name(f)));
        }
    }
}

/// The text of plain lines is ASCII, ends in a line feed, and has no `r` before a line feed.
proof fn lemma_joined_plain(lines: Seq<Seq<char>>)
    requires
        forall|i: int| 0 <= i < lines.len() ==> is_plain_line(#[trigger] lines[i]),
    ensures
        is_ascii_chars(joined(lines)),
        lines.len() > 0 ==> joined(lines).len() > 0 && joined(lines).last() == '\n',
        joined(lines).len() > 0 ==> joined(lines)[0] != '\n',
        forall|p: int|
            1 <= p < joined(lines).len() && #[trigger] joined(lines)[p] == '\n' ==> joined(
                lines,
            )[p - 1] != 'r',
    decreases lines.len(),
{
    let text = joined(lines);
    if lines.len() > 0 {
        let line = lines[0];
        let rest = lines.drop_first();
        let tail = joined(rest);
        let n = line.len() as int;
        assert(is_plain_line(line));
        assert forall|i: int| 0 <= i < rest.len() implies is_plain_line(#[trigger] rest[i]) by {
            assert(rest[i] == lines[i + 1]);
        }
        lemma_joined_plain(rest);
        assert(text == line + seq!['\n'] + tail);
        assert forall|i: int| 0 <= i < text.len() implies '\0' <= #[trigger] text[i] <= '\u{7f}' by {
            if i < n {
                assert(text[i] == line[i]);
            } else if i > n {
                assert(text[i] == tail[i - n - 1]);
            }
        }
        assert(text[0] == line[0]);
        assert forall|p: int| 1 <= p < text.len() && #[trigger] text[p] == '\n' implies text[p - 1]
            != 'r' by {
            if p < n {
                assert(text[p] == line[p]);
            } else if p == n {
                assert(text[p - 1] == line[n - 1]);
            } else {
                assert(text[p] == tail[p - n - 1]);
                if p > n + 1 {
                    assert(text[p - 1] == tail[p - n - 2]);
                }
            }
        }
        if rest.len() > 0 {
            assert(text.last() == tail.last());
        } else {
            assert(tail.len() == 0);
            assert(text.last() == '\n');
        }
    }
}

/// No end marker begins within bytes that end in a line feed and have no `r` before one.
proof fn lemma_no_marker(bytes: Seq<u8>, n: int)
    requires
        0 < n <= bytes.len(),
        bytes[n - 1] == 10,
        forall|p: int| 1 <= p < n && #[trigger] bytes[p] == 10 ==> bytes[p - 1] != 114,
    ensures
        forall|i: int| 0 <= i < n ==> !#[trigger] marker_at(bytes, i),
{
    assert forall|i: int| 0 <= i < n implies !#[trigger] marker_at(bytes, i) by {
        if marker_at(bytes, i) {
            let part = bytes.subrange(i, i + 11);
            assert(part == marker());
            if i + 10 < n {
                assert(part[10] == 10 && part[9] == 114);
                assert(bytes[i + 10] == part[10] && bytes[i + 9] == part[9]);
            } else {
                let d = n - 1 - i;
                assert(part[d] == bytes[n - 1]);
                assert(marker()[d] != 10);
            }
        }
    }
}

/// Writing and reading are inverse to each other: the file of a plain header, which declares the
/// properties of a gaussian in any order, and of the records of gaussians is read as exactly these
/// gaussians, with all their numbers as they are.
pub proof fn lemma_round_trip(order: Seq<nat>, with_sh: bool, gaussians: Seq<GaussianModel>)
    requires
        is_field_order(order, with_sh),
        forall|i: int| 0 <= i < gaussians.len() ==> is_shaped(#[trigger] gaussians[i], with_sh),
        gaussians.len() <= usize::MAX,
    ensures
        ({
            let file = file_bytes(header_text(order, gaussians.len()), order, gaussians);
            &&& header_end(file) is Some
            &&& binary_gaussians(file, header_in(file), body_start(file)) == gaussians
            &&& forall|ply: Result<Ply, PlyError>| #[trigger]
                is_reading(ply, file, header_in(file), body_start(file)) ==> {
                    &&& ply is Ok
                    &&& ply->Ok_0 is Gaussians
                    &&& gaussians_model(ply->Ok_0->Gaussians_0@) == gaussians
                }
        }),
{
    let count = gaussians.len();
    let lines = header_lines(order, count, order.len());
    let text = header_text(order, count);
    lemma_header_lines_plain(order, count);
    assert forall|i: int| 0 <= i < lines.len() implies is_line(#[trigger] lines[i]) by {
        assert(is_plain_line(lines[i]));
    }
    lemma_lines_of_joined(lines);
    lemma_header_lines_say(order, count, order.len());
    assert(float_props(order).take(order.len() as int) =~= float_props(order));
    lemma_joined_plain(lines);
    lemma_no_marker_in_text(text, body_bytes(order, gaussians, count));
    lemma_written_file_is_read(text, order, with_sh, gaussians);
}

proof fn lemma_no_marker_in_text(text: Seq<char>, body: Seq<u8>)
    requires
        is_ascii_chars(text),
        text.len() > 0,
        text.last() == '\n',
        forall|p: int| 1 <= p < text.len() && #[trigger] text[p] == '\n' ==> text[p - 1] != 'r',
    ensures
        forall|i: int|
            0 <= i < encode_utf8(text).len() ==> !#[trigger] marker_at(
                encode_utf8(text) + marker() + body,
                i,
            ),
{
    let bytes = encode_utf8(text);
    let file = bytes + marker() + body;
    let n = bytes.len() as int;
    is_ascii_chars_encode_utf8(text);
    assert forall|i: int| 0 <= i < n implies #[trigger] file[i] == text[i] as u8 && (text[i] as u8)
        as u32 == text[i] as u32 by {
        assert(file[i] == bytes[i]);
        assert('\0' <= text[i] <= '\u{7f}');
    }
    assert(file[n - 1] == 10);
    assert forall|p: int| 1 <= p < n && #[trigger] file[p] == 10 implies file[p - 1] != 114 by {
        assert(text[p] == '\n');
        assert(file[p - 1] == text[p - 1] as u8);
    }
    lemma_no_marker(file, n);
}

} // verus!
