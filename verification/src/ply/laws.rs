//! What holds of every `.ply` file.

use vstd::prelude::*;
use vstd::utf8::encode_utf8;

use crate::order::{is_increasing, lemma_increasing_unique};
use crate::ply::body::word_at;
use crate::ply::header::{
    header_end, header_of, marker, marker_at, marker_from, HeaderModel, PropertyModel,
};
use crate::ply::layout::{
    channel_stride, column, gaussian_of, insert_rest, is_read, lemma_sh_place, named_from,
    per_channel, required, rest_columns, rest_number, rest_pairs, sh_column, sh_of, stride,
    value_named,
};
use crate::ply::{
    binary_gaussians, body_start, header_in, missing_from, numbers_in, record_gaussian,
    record_value, rows_of, text_rows, verdict_on, TextPly, Verdict,
};
use crate::text::{lemma_text_of_encoded, lines_of, words_of};

verus! {

/// The header ends at the first end marker, and nowhere else.
pub proof fn lemma_header_end_is_first(bytes: Seq<u8>)
    ensures
        header_end(bytes) is Some <==> exists|i: int| marker_at(bytes, i),
        header_end(bytes) is Some ==> {
            &&& marker_at(bytes, header_end(bytes)->0 as int)
            &&& forall|i: int| 0 <= i < header_end(bytes)->0 ==> !#[trigger] marker_at(bytes, i)
        },
{
    lemma_marker_from(bytes, 0);
}

proof fn lemma_marker_from(bytes: Seq<u8>, from: nat)
    ensures
        marker_from(bytes, from) is None ==> forall|i: int|
            from <= i ==> !#[trigger] marker_at(bytes, i),
        marker_from(bytes, from) is Some ==> {
            let at = marker_from(bytes, from)->0;
            &&& from <= at
            &&& marker_at(bytes, at as int)
            &&& forall|i: int| from <= i < at ==> !#[trigger] marker_at(bytes, i)
        },
    decreases bytes.len() - from,
{
    if from + 11 <= bytes.len() && !marker_at(bytes, from as int) {
        lemma_marker_from(bytes, from + 1);
    }
}

/// What a header is written to say is what is read of it: a file that begins with the text of a
/// header, and ends it there, has that header, and its body begins behind the end marker.
pub proof fn lemma_header_is_read(text: Seq<char>, body: Seq<u8>)
    requires
        forall|i: int|
            0 <= i < encode_utf8(text).len() ==> !#[trigger] marker_at(
                encode_utf8(text) + marker() + body,
                i,
            ),
    ensures
        ({
            let file = encode_utf8(text) + marker() + body;
            &&& header_end(file) == Some(encode_utf8(text).len())
            &&& header_in(file) == header_of(lines_of(text))
            &&& body_start(file) == encode_utf8(text).len() + 11
            &&& file.skip(body_start(file) as int) == body
        }),
{
    let bytes = encode_utf8(text);
    let file = bytes + marker() + body;
    lemma_parts(bytes, marker(), body);
    lemma_first_marker(file, 0, bytes.len());
    lemma_text_of_encoded(text);
}

proof fn lemma_first_marker(bytes: Seq<u8>, from: nat, n: nat)
    requires
        from <= n,
        marker_at(bytes, n as int),
        forall|i: int| from <= i < n ==> !#[trigger] marker_at(bytes, i),
    ensures
        marker_from(bytes, from) == Some(n),
    decreases n - from,
{
    if from < n {
        assert(!marker_at(bytes, from as int));
        lemma_first_marker(bytes, from + 1, n);
    }
}

proof fn lemma_parts(a: Seq<u8>, b: Seq<u8>, c: Seq<u8>)
    ensures
        (a + b + c).take(a.len() as int) == a,
        (a + b + c).subrange(a.len() as int, a.len() + b.len() as int) == b,
        (a + b + c).skip(a.len() + b.len() as int) == c,
        (a + b + c).len() == a.len() + b.len() + c.len(),
{
    let all = a + b + c;
    assert(all.take(a.len() as int) =~= a);
    assert(all.subrange(a.len() as int, a.len() + b.len() as int) =~= b);
    assert(all.skip(a.len() + b.len() as int) =~= c);
}

/// A line that declares nothing (a comment, say) does not change what a header says.
pub proof fn lemma_other_lines_say_nothing(lines: Seq<Seq<char>>, line: Seq<char>)
    requires
        words_of(line).len() > 0 ==> {
            &&& words_of(line)[0] != "format"@
            &&& words_of(line)[0] != "element"@
            &&& words_of(line)[0] != "property"@
        },
    ensures
        header_of(lines.push(line)) == header_of(lines),
{
    assert(lines.push(line).drop_last() =~= lines);
}

/// The properties of other elements are not part of a vertex: no line under another element
/// changes the properties of a vertex record, nor how many there are.
pub proof fn lemma_other_elements_do_not_count(lines: Seq<Seq<char>>, block: Seq<Seq<char>>)
    requires
        !header_of(lines).in_vertex,
        forall|i: int|
            0 <= i < block.len() ==> words_of(#[trigger] block[i]).len() == 0 || words_of(
                block[i],
            )[0] != "element"@,
    ensures
        !header_of(lines + block).in_vertex,
        header_of(lines + block).props == header_of(lines).props,
        header_of(lines + block).count == header_of(lines).count,
        header_of(lines + block).unknown == header_of(lines).unknown,
    decreases block.len(),
{
    if block.len() == 0 {
        assert(lines + block =~= lines);
    } else {
        let shorter = block.drop_last();
        assert forall|i: int| 0 <= i < shorter.len() implies words_of(#[trigger] shorter[i]).len()
            == 0 || words_of(shorter[i])[0] != "element"@ by {
            assert(shorter[i] == block[i]);
        }
        lemma_other_elements_do_not_count(lines, shorter);
        assert((lines + block).drop_last() =~= lines + shorter);
        assert((lines + block).last() == block[block.len() - 1]);
    }
}

/// Each type of unknown size is noted once.
pub proof fn lemma_unknown_types_once(lines: Seq<Seq<char>>)
    ensures
        header_of(lines).unknown.no_duplicates(),
    decreases lines.len(),
{
    if lines.len() > 0 {
        lemma_unknown_types_once(lines.drop_last());
        let before = header_of(lines.drop_last()).unknown;
        let after = header_of(lines).unknown;
        if after != before {
            assert forall|i: int, j: int| 0 <= i < after.len() && 0 <= j < after.len() && i != j
                implies after[i] != after[j] by {
                if i == after.len() - 1 {
                    assert(before.contains(before[j]));
                } else if j == after.len() - 1 {
                    assert(before.contains(before[i]));
                }
            }
        }
    }
}

/// A property is found by name, and of two with the same name the first one counts.
pub proof fn lemma_column_is_first(props: Seq<PropertyModel>, name: Seq<char>)
    ensures
        column(props, name) is None ==> forall|i: int|
            0 <= i < props.len() ==> (#[trigger] props[i]).name != name,
        column(props, name) is Some ==> {
            let col = column(props, name)->0;
            &&& col < props.len()
            &&& props[col as int].name == name
            &&& forall|i: int| 0 <= i < col ==> (#[trigger] props[i]).name != name
        },
{
    lemma_named_from(props, name, 0);
}

proof fn lemma_named_from(props: Seq<PropertyModel>, name: Seq<char>, from: nat)
    ensures
        named_from(props, name, from) is None ==> forall|i: int|
            from <= i < props.len() ==> (#[trigger] props[i]).name != name,
        named_from(props, name, from) is Some ==> {
            let col = named_from(props, name, from)->0;
            &&& from <= col < props.len()
            &&& props[col as int].name == name
            &&& forall|i: int| from <= i < col ==> (#[trigger] props[i]).name != name
        },
    decreases props.len() - from,
{
    if from < props.len() && props[from as int].name != name {
        lemma_named_from(props, name, from + 1);
    }
}

/// Whether a list of numbered columns is ordered by number, and by place where numbers are equal.
pub open spec fn in_number_order(pairs: Seq<(nat, nat)>) -> bool {
    forall|i: int, j: int|
        0 <= i < j < pairs.len() ==> (#[trigger] pairs[i]).0 < (#[trigger] pairs[j]).0 || (
        pairs[i].0 == pairs[j].0 && pairs[i].1 < pairs[j].1)
}

/// The higher-order coefficients are exactly the properties named `f_rest_` and a number; they are
/// taken by increasing number, whatever the order of their declaration.
pub proof fn lemma_rest_by_number(props: Seq<PropertyModel>, n: nat)
    requires
        n <= props.len(),
    ensures
        in_number_order(rest_pairs(props, n)),
        forall|k: nat, col: nat| #[trigger]
            rest_pairs(props, n).contains((k, col)) <==> col < n && rest_number(
                props[col as int].name,
            ) == Some(k),
    decreases n,
{
    if n > 0 {
        let m = (n - 1) as nat;
        lemma_rest_by_number(props, m);
        let before = rest_pairs(props, m);
        let after = rest_pairs(props, n);
        match rest_number(props[m as int].name) {
            Some(k) => {
                assert forall|i: int| 0 <= i < before.len() implies (#[trigger] before[i]).1
                    < m by {
                    assert(before.contains((before[i].0, before[i].1)));
                }
                lemma_insert_rest_in_order(before, k, m);
            },
            None => {},
        }
    }
}

proof fn lemma_insert_rest_in_order(rest: Seq<(nat, nat)>, k: nat, col: nat)
    requires
        in_number_order(rest),
        forall|i: int| 0 <= i < rest.len() ==> (#[trigger] rest[i]).1 < col,
    ensures
        in_number_order(insert_rest(rest, k, col)),
        forall|p: (nat, nat)| #[trigger]
            insert_rest(rest, k, col).contains(p) <==> p == (k, col) || rest.contains(p),
    decreases rest.len(),
{
    let all = insert_rest(rest, k, col);
    if rest.len() == 0 || rest.last().0 <= k {
        assert(all =~= rest.push((k, col)));
        assert forall|p: (nat, nat)| #[trigger]
            all.contains(p) <==> p == (k, col) || rest.contains(p) by {
            if rest.contains(p) {
                let i = choose|i: int| 0 <= i < rest.len() && rest[i] == p;
                assert(all[i] == p);
            }
            assert(all[all.len() - 1] == (k, col));
        }
    } else {
        let shorter = rest.drop_last();
        assert forall|i: int| 0 <= i < shorter.len() implies (#[trigger] shorter[i]).1 < col by {
            assert(shorter[i] == rest[i]);
        }
        lemma_insert_rest_in_order(shorter, k, col);
        let inner = insert_rest(shorter, k, col);
        assert(all =~= inner.push(rest.last()));
        assert forall|p: (nat, nat)| #[trigger]
            all.contains(p) <==> p == (k, col) || rest.contains(p) by {
            if all.contains(p) {
                let i = choose|i: int| 0 <= i < all.len() && all[i] == p;
                if i < inner.len() {
                    assert(inner.contains(p));
                    if p != (k, col) {
                        assert(shorter.contains(p));
                        let j = choose|j: int| 0 <= j < shorter.len() && shorter[j] == p;
                        assert(rest[j] == p);
                    }
                } else {
                    assert(rest[rest.len() - 1] == p);
                }
            }
            if rest.contains(p) {
                let j = choose|j: int| 0 <= j < rest.len() && rest[j] == p;
                if j < shorter.len() {
                    assert(shorter[j] == p);
                    assert(shorter.contains(p));
                    assert(inner.contains(p));
                    let i = choose|i: int| 0 <= i < inner.len() && inner[i] == p;
                    assert(all[i] == p);
                } else {
                    assert(all[all.len() - 1] == p);
                }
            }
            if p == (k, col) {
                assert(inner.contains(p));
                let i = choose|i: int| 0 <= i < inner.len() && inner[i] == p;
                assert(all[i] == p);
            }
        }
        assert forall|i: int, j: int| 0 <= i < j < all.len() implies (#[trigger] all[i]).0 < (
        #[trigger] all[j]).0 || (all[i].0 == all[j].0 && all[i].1 < all[j].1) by {
            if j == all.len() - 1 {
                assert(all[i] == inner[i]);
                assert(inner.contains(inner[i]));
                if inner[i] != (k, col) {
                    assert(shorter.contains(inner[i]));
                    let m = choose|m: int| 0 <= m < shorter.len() && shorter[m] == inner[i];
                    assert(rest[m] == inner[i]);
                }
            } else {
                assert(all[i] == inner[i] && all[j] == inner[j]);
            }
        }
    }
}

/// In a file with all higher-order coefficients up to degree three, numbered from 0 to 44, the
/// coefficient number `m` is entry `m`: fifteen for each channel, one channel after the other.
pub proof fn lemma_full_sh_by_number(
    props: Seq<PropertyModel>,
    read: spec_fn(nat) -> u32,
    m: int,
)
    requires
        rest_pairs(props, props.len()).len() == 45,
        forall|i: int|
            0 <= i < 45 ==> (#[trigger] rest_pairs(props, props.len())[i]).0 < 45,
        forall|i: int, j: int|
            0 <= i < j < 45 ==> (#[trigger] rest_pairs(props, props.len())[i]).0 != (
            #[trigger] rest_pairs(props, props.len())[j]).0,
        0 <= m < 45,
    ensures
        rest_pairs(props, props.len())[m].0 == m,
        sh_of(props, read) is Some,
        sh_of(props, read)->0[m] == read(rest_pairs(props, props.len())[m].1),
{
    let pairs = rest_pairs(props, props.len());
    lemma_rest_by_number(props, props.len());
    lemma_strictly_increasing(pairs, m, 45);
    assert(rest_columns(props).len() == 45);
    assert(per_channel(props) == 15);
    assert(m / 15 * 15 + m % 15 == m);
}

/// Among `pairs.len() == bound` numbers below `bound` that grow strictly, each is its own place.
proof fn lemma_strictly_increasing(pairs: Seq<(nat, nat)>, m: int, bound: int)
    requires
        pairs.len() == bound,
        in_number_order(pairs),
        forall|i: int| 0 <= i < bound ==> (#[trigger] pairs[i]).0 < bound,
        forall|i: int, j: int|
            0 <= i < j < bound ==> (#[trigger] pairs[i]).0 != (#[trigger] pairs[j]).0,
        0 <= m < bound,
    ensures
        pairs[m].0 == m,
{
    lemma_at_least_place(pairs, m);
    lemma_at_most_place(pairs, m, bound);
}

/// Numbers that grow strictly are not below their places.
pub(crate) proof fn lemma_at_least_place(pairs: Seq<(nat, nat)>, m: int)
    requires
        forall|i: int, j: int|
            0 <= i < j < pairs.len() ==> (#[trigger] pairs[i]).0 < (#[trigger] pairs[j]).0,
        0 <= m < pairs.len(),
    ensures
        pairs[m].0 >= m,
    decreases m,
{
    if m > 0 {
        lemma_at_least_place(pairs, m - 1);
        assert(pairs[m - 1].0 < pairs[m].0);
    }
}

proof fn lemma_at_most_place(pairs: Seq<(nat, nat)>, m: int, bound: int)
    requires
        pairs.len() == bound,
        in_number_order(pairs),
        forall|i: int| 0 <= i < bound ==> (#[trigger] pairs[i]).0 < bound,
        forall|i: int, j: int|
            0 <= i < j < bound ==> (#[trigger] pairs[i]).0 != (#[trigger] pairs[j]).0,
        0 <= m < bound,
    ensures
        pairs[m].0 <= m,
    decreases bound - m,
{
    if m < bound - 1 {
        lemma_at_most_place(pairs, m + 1, bound);
        assert(pairs[m].0 != pairs[m + 1].0);
    } else {
        assert(pairs[m].0 < bound);
    }
}

/// Nothing but the columns of a gaussian's own properties decides what it is: normals and all
/// other properties are skipped.
pub proof fn lemma_other_columns_skipped(
    props: Seq<PropertyModel>,
    a: spec_fn(nat) -> u32,
    b: spec_fn(nat) -> u32,
)
    requires
        missing_from(props, 0) is None,
        forall|col: nat| #[trigger] is_read(props, col) ==> a(col) == b(col),
    ensures
        gaussian_of(props, a) == gaussian_of(props, b),
{
    assert forall|n: int| 0 <= n < 14 implies a(column(props, #[trigger] required()[n])->0) == b(
        column(props, required()[n])->0,
    ) by {
        lemma_none_missing_at(props, 0, n as nat);
        assert(is_read(props, column(props, required()[n])->0));
    }
    assert(required()[0] == "x"@ && required()[1] == "y"@ && required()[2] == "z"@);
    assert(required()[3] == "scale_0"@ && required()[4] == "scale_1"@ && required()[5]
        == "scale_2"@);
    assert(required()[6] == "rot_0"@ && required()[7] == "rot_1"@ && required()[8] == "rot_2"@
        && required()[9] == "rot_3"@);
    assert(required()[10] == "f_dc_0"@ && required()[11] == "f_dc_1"@ && required()[12]
        == "f_dc_2"@ && required()[13] == "opacity"@);
    if per_channel(props) > 0 {
        assert forall|m: int| 0 <= m < 45 implies sh_of(props, a)->0[m] == sh_of(
            props,
            b,
        )->0[m] by {
            if m % 15 < per_channel(props) {
                assert(is_read(props, sh_column(props, m)));
            }
        }
        assert(sh_of(props, a)->0 =~= sh_of(props, b)->0);
    }
    assert(gaussian_of(props, a) =~= gaussian_of(props, b));
}

proof fn lemma_none_missing_at(props: Seq<PropertyModel>, from: nat, n: nat)
    requires
        missing_from(props, from) is None,
        from <= n < 14,
    ensures
        column(props, required()[n as int]) is Some,
    decreases n - from,
{
    if from < n {
        lemma_none_missing_at(props, from + 1, n);
    }
}

proof fn lemma_marker_from_extended(bytes: Seq<u8>, more: Seq<u8>, from: nat)
    requires
        marker_from(bytes, from) is Some,
    ensures
        marker_from(bytes + more, from) == marker_from(bytes, from),
        marker_from(bytes, from)->0 + 11 <= bytes.len(),
    decreases bytes.len() - from,
{
    assert((bytes + more).subrange(from as int, from as int + 11) =~= bytes.subrange(
        from as int,
        from as int + 11,
    ));
    if !marker_at(bytes, from as int) {
        lemma_marker_from_extended(bytes, more, from + 1);
    }
}

/// What follows the last record of a binary body does not matter.
pub proof fn lemma_trailing_bytes_ignored(bytes: Seq<u8>, more: Seq<u8>)
    requires
        header_end(bytes) is Some,
        verdict_on(header_in(bytes), body_start(bytes), bytes.len()) == Verdict::Binary,
    ensures
        header_end(bytes + more) == header_end(bytes),
        header_in(bytes + more) == header_in(bytes),
        verdict_on(header_in(bytes + more), body_start(bytes + more), (bytes + more).len())
            == Verdict::Binary,
        binary_gaussians(bytes + more, header_in(bytes + more), body_start(bytes + more))
            == binary_gaussians(bytes, header_in(bytes), body_start(bytes)),
{
    let all = bytes + more;
    lemma_marker_from_extended(bytes, more, 0);
    let end = header_end(bytes)->0;
    assert(all.take(end as int) =~= bytes.take(end as int));
    let h = header_in(bytes);
    let start = body_start(bytes);
    assert forall|i: int| 0 <= i < h.count implies #[trigger] record_gaussian(
        all,
        h.props,
        start,
        i as nat,
    ) == record_gaussian(bytes, h.props, start, i as nat) by {
        let a = |col: nat| record_value(all, h.props, start, i as nat, col);
        let b = |col: nat| record_value(bytes, h.props, start, i as nat, col);
        assert(i * stride(h.props) <= (h.count - 1) * stride(h.props)) by (nonlinear_arith)
            requires
                i <= h.count - 1,
                stride(h.props) >= 0,
        ;
        assert(0 <= i * stride(h.props)) by (nonlinear_arith)
            requires
                i >= 0,
                stride(h.props) >= 0,
        ;
        assert forall|col: nat| #[trigger] is_read(h.props, col) implies a(col) == b(col) by {}
        lemma_other_columns_skipped(h.props, a, b);
    }
    assert(binary_gaussians(all, h, start) =~= binary_gaussians(bytes, h, start));
}

/// A number keeps all its bits: it is read back from the four bytes that it is written as.
pub proof fn lemma_word_keeps_bits(word: u32, before: Seq<u8>, after: Seq<u8>)
    ensures
        word_at(
            before + seq![
                (word % 0x100) as u8,
                (word / 0x100 % 0x100) as u8,
                (word / 0x1_0000 % 0x100) as u8,
                (word / 0x100_0000) as u8,
            ] + after,
            before.len() as int,
        ) == word,
{
    let bytes = before + seq![
        (word % 0x100) as u8,
        (word / 0x100 % 0x100) as u8,
        (word / 0x1_0000 % 0x100) as u8,
        (word / 0x100_0000) as u8,
    ] + after;
    let at = before.len() as int;
    assert(bytes[at] == (word % 0x100) as u8);
    assert(bytes[at + 1] == (word / 0x100 % 0x100) as u8);
    assert(bytes[at + 2] == (word / 0x1_0000 % 0x100) as u8);
    assert(bytes[at + 3] == (word / 0x100_0000) as u8);
}

/// A text body and a binary body with the same numbers hold the same gaussians.
pub proof fn lemma_text_and_binary_agree(
    text: TextPly,
    readings: Seq<Option<u32>>,
    bytes: Seq<u8>,
    data_start: nat,
    i: nat,
)
    requires
        missing_from(text.layout@, 0) is None,
        forall|col: nat| #[trigger]
            is_read(text.layout@, col) ==> numbers_in(readings)[col as int] == record_value(
                bytes,
                text.layout@,
                data_start,
                i,
                col,
            ),
    ensures
        text.row_gaussian(readings) == record_gaussian(bytes, text.layout@, data_start, i),
{
    lemma_other_columns_skipped(
        text.layout@,
        |col: nat| numbers_in(readings)[col as int],
        |col: nat| record_value(bytes, text.layout@, data_start, i, col),
    );
}

/// A text body gives no more rows than the header declares vertices, and a blank line is none of
/// them.
pub proof fn lemma_text_rows(text: Seq<char>, count: nat)
    ensures
        text_rows(text, count).len() <= count,
        forall|i: int|
            0 <= i < text_rows(text, count).len() ==> (#[trigger] text_rows(text, count)[i]).len()
                > 0,
{
    lemma_rows_not_blank(lines_of(text));
}

proof fn lemma_rows_not_blank(lines: Seq<Seq<char>>)
    ensures
        forall|i: int|
            0 <= i < rows_of(lines).len() ==> (#[trigger] rows_of(lines)[i]).len() > 0,
    decreases lines.len(),
{
    if lines.len() > 0 {
        lemma_rows_not_blank(lines.drop_last());
        let before = rows_of(lines.drop_last());
        let rows = rows_of(lines);
        assert forall|i: int| 0 <= i < rows.len() implies (#[trigger] rows[i]).len() > 0 by {
            if i < before.len() {
                assert(rows[i] == before[i]);
            }
        }
    }
}

/// Whether no two higher-order color coefficients have the same number.
pub open spec fn rest_numbers_differ(props: Seq<PropertyModel>) -> bool {
    forall|i: int, j: int|
        0 <= i < j < props.len() && rest_number((#[trigger] props[i]).name) is Some ==> rest_number(
            props[i].name,
        ) != rest_number((#[trigger] props[j]).name)
}

/// Whether one of the properties holds the higher-order color coefficient `k`.
pub open spec fn has_rest(props: Seq<PropertyModel>, k: nat) -> bool {
    exists|col: int|
        0 <= col < props.len() && rest_number((#[trigger] props[col]).name) == Some(k)
}

/// Whether two vertices, with columns of their own, have the same numbers for all properties of a
/// gaussian: for each name that every file must have, and for each higher-order coefficient.
pub open spec fn same_by_name(
    props_a: Seq<PropertyModel>,
    a: spec_fn(nat) -> u32,
    props_b: Seq<PropertyModel>,
    b: spec_fn(nat) -> u32,
) -> bool {
    &&& forall|n: int|
        0 <= n < 14 ==> value_named(props_a, a, #[trigger] required()[n]) == value_named(
            props_b,
            b,
            required()[n],
        )
    &&& forall|k: nat| #[trigger] has_rest(props_a, k) <==> has_rest(props_b, k)
    &&& forall|i: nat, j: nat|
        i < props_a.len() && j < props_b.len() && rest_number(props_a[i as int].name) is Some
            && rest_number(props_a[i as int].name) == rest_number(props_b[j as int].name)
            ==> #[trigger] a(i) == #[trigger] b(j)
}

/// The numbers of the higher-order coefficients, in their order.
spec fn rest_numbers(props: Seq<PropertyModel>) -> Seq<int> {
    rest_pairs(props, props.len()).map_values(|p: (nat, nat)| p.0 as int)
}

proof fn lemma_rest_numbers(props: Seq<PropertyModel>)
    requires
        rest_numbers_differ(props),
    ensures
        is_increasing(rest_numbers(props)),
        forall|v: int| #[trigger]
            rest_numbers(props).contains(v) <==> v >= 0 && has_rest(props, v as nat),
        forall|i: int|
            0 <= i < rest_numbers(props).len() ==> {
                &&& (#[trigger] rest_columns(props)[i]) < props.len()
                &&& rest_number(props[rest_columns(props)[i] as int].name) == Some(
                    rest_numbers(props)[i] as nat,
                )
            },
{
    let pairs = rest_pairs(props, props.len());
    let numbers = rest_numbers(props);
    lemma_rest_by_number(props, props.len());
    assert forall|i: int| 0 <= i < pairs.len() implies (#[trigger] pairs[i]).1 < props.len()
        && rest_number(props[pairs[i].1 as int].name) == Some(pairs[i].0) by {
        assert(pairs.contains((pairs[i].0, pairs[i].1)));
    }
    assert forall|i: int, j: int| 0 <= i < j < numbers.len() implies #[trigger] numbers[i]
        < #[trigger] numbers[j] by {
        assert(pairs[i].0 < pairs[j].0 || (pairs[i].0 == pairs[j].0 && pairs[i].1 < pairs[j].1));
        assert(props[pairs[i].1 as int].name == props[pairs[i].1 as int].name);
        assert(props[pairs[j].1 as int].name == props[pairs[j].1 as int].name);
    }
    assert forall|v: int| #[trigger] numbers.contains(v) <==> v >= 0 && has_rest(
        props,
        v as nat,
    ) by {
        if numbers.contains(v) {
            let i = choose|i: int| 0 <= i < numbers.len() && numbers[i] == v;
            assert(rest_number(props[pairs[i].1 as int].name) == Some(v as nat));
        }
        if v >= 0 && has_rest(props, v as nat) {
            let col = choose|col: int|
                0 <= col < props.len() && rest_number((#[trigger] props[col]).name) == Some(
                    v as nat,
                );
            assert(pairs.contains((v as nat, col as nat)));
            let i = choose|i: int| 0 <= i < pairs.len() && pairs[i] == (v as nat, col as nat);
            assert(numbers[i] == v);
        }
    }
}

/// Neither the order of the columns nor other columns between them matter: two vertices with the
/// same numbers for all properties of a gaussian are the same gaussian.
pub proof fn lemma_columns_do_not_matter(
    props_a: Seq<PropertyModel>,
    a: spec_fn(nat) -> u32,
    props_b: Seq<PropertyModel>,
    b: spec_fn(nat) -> u32,
)
    requires
        rest_numbers_differ(props_a),
        rest_numbers_differ(props_b),
        same_by_name(props_a, a, props_b, b),
    ensures
        gaussian_of(props_a, a) == gaussian_of(props_b, b),
{
    let names = required();
    assert(names[0] == "x"@ && names[1] == "y"@ && names[2] == "z"@);
    assert(names[3] == "scale_0"@ && names[4] == "scale_1"@ && names[5] == "scale_2"@);
    assert(names[6] == "rot_0"@ && names[7] == "rot_1"@ && names[8] == "rot_2"@ && names[9]
        == "rot_3"@);
    assert(names[10] == "f_dc_0"@ && names[11] == "f_dc_1"@ && names[12] == "f_dc_2"@ && names[13]
        == "opacity"@);
    lemma_rest_numbers(props_a);
    lemma_rest_numbers(props_b);
    let numbers = rest_numbers(props_a);
    assert forall|v: int| #[trigger] numbers.contains(v) <==> rest_numbers(props_b).contains(v) by {
        if v >= 0 {
            assert(has_rest(props_a, v as nat) <==> has_rest(props_b, v as nat));
        }
    }
    lemma_increasing_unique(numbers, rest_numbers(props_b));
    assert(rest_columns(props_a).len() == numbers.len());
    assert(rest_columns(props_b).len() == numbers.len());
    assert forall|m: int| 0 <= m < 45 && m % 15 < per_channel(props_a) implies a(
        #[trigger] sh_column(props_a, m),
    ) == b(sh_column(props_b, m)) by {
        lemma_sh_place(props_a, m);
        let at = m / 15 * channel_stride(props_a) + m % 15;
        assert(rest_columns(props_a)[at] == sh_column(props_a, m));
        assert(rest_columns(props_b)[at] == sh_column(props_b, m));
    }
    if per_channel(props_a) > 0 {
        assert forall|m: int| 0 <= m < 45 implies sh_of(props_a, a)->0[m] == sh_of(
            props_b,
            b,
        )->0[m] by {
            if m % 15 < per_channel(props_a) {
                assert(a(sh_column(props_a, m)) == b(sh_column(props_b, m)));
            }
        }
        assert(sh_of(props_a, a)->0 =~= sh_of(props_b, b)->0);
    }
    assert(gaussian_of(props_a, a) =~= gaussian_of(props_b, b));
}

/// Two binary bodies of the same length, each with columns of its own, whose records hold the same
/// numbers for all properties of a gaussian, hold the same gaussians.
pub proof fn lemma_layout_does_not_matter(
    bytes_a: Seq<u8>,
    a: HeaderModel,
    start_a: nat,
    bytes_b: Seq<u8>,
    b: HeaderModel,
    start_b: nat,
)
    requires
        a.count == b.count,
        rest_numbers_differ(a.props),
        rest_numbers_differ(b.props),
        forall|i: nat|
            i < a.count ==> #[trigger] same_records(bytes_a, a, start_a, bytes_b, b, start_b, i),
    ensures
        binary_gaussians(bytes_a, a, start_a) == binary_gaussians(bytes_b, b, start_b),
{
    assert forall|i: int| 0 <= i < a.count implies #[trigger] record_gaussian(
        bytes_a,
        a.props,
        start_a,
        i as nat,
    ) == record_gaussian(bytes_b, b.props, start_b, i as nat) by {
        assert(same_records(bytes_a, a, start_a, bytes_b, b, start_b, i as nat));
        lemma_columns_do_not_matter(
            a.props,
            |col: nat| record_value(bytes_a, a.props, start_a, i as nat, col),
            b.props,
            |col: nat| record_value(bytes_b, b.props, start_b, i as nat, col),
        );
    }
    assert(binary_gaussians(bytes_a, a, start_a) =~= binary_gaussians(bytes_b, b, start_b));
}

/// Whether record `i` of two binary bodies holds the same numbers for all properties of a gaussian.
pub open spec fn same_records(
    bytes_a: Seq<u8>,
    a: HeaderModel,
    start_a: nat,
    bytes_b: Seq<u8>,
    b: HeaderModel,
    start_b: nat,
    i: nat,
) -> bool {
    same_by_name(
        a.props,
        |col: nat| record_value(bytes_a, a.props, start_a, i, col),
        b.props,
        |col: nat| record_value(bytes_b, b.props, start_b, i, col),
    )
}

} // verus!
