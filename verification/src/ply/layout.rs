//! Where a vertex record holds the numbers of a gaussian.

use vstd::prelude::*;

use crate::ply::header::{header_of, props_model, Property, PropertyModel};
use crate::scene::{Gaussian, GaussianModel};
use crate::text::{
    begins_with, chars_between, lemma_word_len_bound, line_len, lines_of, parse_unsigned,
    same_text, starts_with, unsigned_of, without_cr, word_len, words_of,
};

verus! {

/// The names of the properties that every file must have.
pub open spec fn required() -> Seq<Seq<char>> {
    seq![
        "x"@,
        "y"@,
        "z"@,
        "scale_0"@,
        "scale_1"@,
        "scale_2"@,
        "rot_0"@,
        "rot_1"@,
        "rot_2"@,
        "rot_3"@,
        "f_dc_0"@,
        "f_dc_1"@,
        "f_dc_2"@,
        "opacity"@,
    ]
}

/// The name of the property that stands at `n` among those that every file must have.
pub fn required_name(n: usize) -> (name: &'static str)
    requires
        n < 14,
    ensures
        name@ == required()[n as int],
{
    match n {
        0 => "x",
        1 => "y",
        2 => "z",
        3 => "scale_0",
        4 => "scale_1",
        5 => "scale_2",
        6 => "rot_0",
        7 => "rot_1",
        8 => "rot_2",
        9 => "rot_3",
        10 => "f_dc_0",
        11 => "f_dc_1",
        12 => "f_dc_2",
        _ => "opacity",
    }
}

/// The first property, at or behind `from`, of this name.
pub open spec fn named_from(props: Seq<PropertyModel>, name: Seq<char>, from: nat) -> Option<nat>
    decreases props.len() - from,
{
    if from >= props.len() {
        None
    } else if props[from as int].name == name {
        Some(from)
    } else {
        named_from(props, name, from + 1)
    }
}

/// The first property of this name.
pub open spec fn column(props: Seq<PropertyModel>, name: Seq<char>) -> Option<nat> {
    named_from(props, name, 0)
}

/// The size of the first `n` properties together: where the next one begins in a record.
pub open spec fn offset(props: Seq<PropertyModel>, n: nat) -> nat
    decreases n,
{
    if n == 0 {
        0
    } else {
        offset(props, (n - 1) as nat) + props[n - 1].size
    }
}

/// The size of a record.
pub open spec fn stride(props: Seq<PropertyModel>) -> nat {
    offset(props, props.len())
}

/// The number of a higher-order color coefficient: what follows `f_rest_` in its name.
pub open spec fn rest_number(name: Seq<char>) -> Option<nat> {
    if begins_with(name, "f_rest_"@) {
        unsigned_of(name.skip(7), u32::MAX as nat)
    } else {
        None
    }
}

/// Puts the property `col`, which holds the coefficient `k`, behind all those whose number is not
/// larger.
pub open spec fn insert_rest(rest: Seq<(nat, nat)>, k: nat, col: nat) -> Seq<(nat, nat)>
    decreases rest.len(),
{
    if rest.len() == 0 || rest.last().0 <= k {
        rest.push((k, col))
    } else {
        insert_rest(rest.drop_last(), k, col).push(rest.last())
    }
}

/// The higher-order color coefficients among the first `n` properties, each with its number, by
/// increasing number, and in the order of declaration where two have the same.
pub open spec fn rest_pairs(props: Seq<PropertyModel>, n: nat) -> Seq<(nat, nat)>
    decreases n,
{
    if n == 0 {
        seq![]
    } else {
        let before = rest_pairs(props, (n - 1) as nat);
        match rest_number(props[n - 1].name) {
            Some(k) => insert_rest(before, k, (n - 1) as nat),
            None => before,
        }
    }
}

/// The properties that hold the higher-order color coefficients, by increasing number.
pub open spec fn rest_columns(props: Seq<PropertyModel>) -> Seq<nat> {
    rest_pairs(props, props.len()).map_values(|p: (nat, nat)| p.1)
}

/// How many higher-order coefficients each channel has in the file.
pub open spec fn channel_stride(props: Seq<PropertyModel>) -> nat {
    rest_columns(props).len() / 3
}

/// How many higher-order coefficients of each channel are used: all up to degree three, where the
/// file has as many for each channel, and none otherwise.
pub open spec fn per_channel(props: Seq<PropertyModel>) -> nat {
    let n = rest_columns(props).len();
    if n % 3 != 0 {
        0
    } else if n / 3 > 15 {
        15
    } else {
        n / 3
    }
}

/// The property that holds the higher-order coefficient `m % 15` of channel `m / 15`.
pub open spec fn sh_column(props: Seq<PropertyModel>, m: int) -> nat {
    rest_columns(props)[m / 15 * channel_stride(props) + m % 15]
}

/// The higher-order coefficients of a vertex whose columns hold what `read` gives: fifteen for
/// each channel, with zeros where the file has fewer.
pub open spec fn sh_of(props: Seq<PropertyModel>, read: spec_fn(nat) -> u32) -> Option<Seq<u32>> {
    if per_channel(props) == 0 {
        None
    } else {
        Some(
            Seq::new(
                45,
                |m: int|
                    if m % 15 < per_channel(props) {
                        read(sh_column(props, m))
                    } else {
                        0
                    },
            ),
        )
    }
}

/// What `read` gives for the property of this name.
pub open spec fn value_named(
    props: Seq<PropertyModel>,
    read: spec_fn(nat) -> u32,
    name: Seq<char>,
) -> u32 {
    read(column(props, name)->0)
}

/// The gaussian of a vertex whose columns hold what `read` gives.
pub open spec fn gaussian_of(props: Seq<PropertyModel>, read: spec_fn(nat) -> u32) -> GaussianModel {
    GaussianModel {
        mean: seq![
            value_named(props, read, "x"@),
            value_named(props, read, "y"@),
            value_named(props, read, "z"@),
        ],
        log_scale: seq![
            value_named(props, read, "scale_0"@),
            value_named(props, read, "scale_1"@),
            value_named(props, read, "scale_2"@),
        ],
        quat: seq![
            value_named(props, read, "rot_0"@),
            value_named(props, read, "rot_1"@),
            value_named(props, read, "rot_2"@),
            value_named(props, read, "rot_3"@),
        ],
        color_dc: seq![
            value_named(props, read, "f_dc_0"@),
            value_named(props, read, "f_dc_1"@),
            value_named(props, read, "f_dc_2"@),
        ],
        opacity_raw: value_named(props, read, "opacity"@),
        sh: sh_of(props, read),
    }
}

/// Whether a gaussian is built from what column `col` holds.
pub open spec fn is_read(props: Seq<PropertyModel>, col: nat) -> bool {
    ||| exists|n: int| 0 <= n < 14 && column(props, #[trigger] required()[n]) == Some(col)
    ||| exists|m: int|
        0 <= m < 45 && m % 15 < per_channel(props) && #[trigger] sh_column(props, m) == col
}

/// The properties of a vertex record, and where the numbers of a gaussian stand among them.
pub struct Layout {
    /// All properties of a record, in order.
    pub props: Vec<Property>,
    /// The columns of the properties that every file must have.
    pub columns: Vec<usize>,
    /// Where each property begins in a record.
    pub offsets: Vec<usize>,
    /// The size of a record.
    pub stride: usize,
    /// The columns of the higher-order color coefficients, by increasing number.
    pub rest: Vec<usize>,
    /// How many higher-order coefficients of each channel are used.
    pub per_channel: usize,
}

impl View for Layout {
    type V = Seq<PropertyModel>;

    open spec fn view(&self) -> Seq<PropertyModel> {
        props_model(self.props@)
    }
}

/// The first property of this name.
fn find_column(props: &Vec<Property>, name: &str) -> (col: Option<usize>)
    ensures
        col is Some <==> column(props_model(props@), name@) is Some,
        col is Some ==> col->0 < props@.len() && col->0 == column(props_model(props@), name@)->0,
{
    let ghost model = props_model(props@);
    let mut i: usize = 0;
    while i < props.len()
        invariant
            i <= props@.len(),
            model == props_model(props@),
            column(model, name@) == named_from(model, name@, i as nat),
        decreases props@.len() - i,
    {
        if same_text(props[i].name.as_slice(), name) {
            return Some(i);
        }
        i += 1;
    }
    None
}

/// The number of a higher-order color coefficient, from its name.
fn parse_rest_number(name: &Vec<char>) -> (k: Option<u32>)
    ensures
        k is Some <==> rest_number(name@) is Some,
        k is Some ==> k->0 == rest_number(name@)->0,
{
    proof {
        reveal_strlit("f_rest_");
    }
    if starts_with(name.as_slice(), "f_rest_") {
        let digits = chars_between(name.as_slice(), 7, name.len());
        assert(digits@ =~= name@.skip(7));
        match parse_unsigned(digits.as_slice(), u32::MAX as u64) {
            Some(k) => Some(k as u32),
            None => None,
        }
    } else {
        None
    }
}

/// The pairs as mathematical values.
spec fn pairs_model(pairs: Seq<(u32, usize)>) -> Seq<(nat, nat)> {
    pairs.map_values(|p: (u32, usize)| (p.0 as nat, p.1 as nat))
}

proof fn lemma_insert_rest(rest: Seq<(nat, nat)>, k: nat, col: nat, at: int)
    requires
        0 <= at <= rest.len(),
        at > 0 ==> rest[at - 1].0 <= k,
        forall|i: int| at <= i < rest.len() ==> k < (#[trigger] rest[i]).0,
    ensures
        insert_rest(rest, k, col) == rest.insert(at, (k, col)),
    decreases rest.len(),
{
    if at < rest.len() {
        lemma_insert_rest(rest.drop_last(), k, col, at);
        assert(rest.insert(at, (k, col)) =~= rest.drop_last().insert(at, (k, col)).push(
            rest.last(),
        ));
    } else {
        assert(rest.insert(at, (k, col)) =~= rest.push((k, col)));
    }
}

proof fn lemma_rest_pairs_bound(props: Seq<PropertyModel>, n: nat)
    requires
        n <= props.len(),
    ensures
        rest_pairs(props, n).len() <= n,
        forall|i: int|
            0 <= i < rest_pairs(props, n).len() ==> (#[trigger] rest_pairs(props, n)[i]).1 < n,
    decreases n,
{
    if n > 0 {
        lemma_rest_pairs_bound(props, (n - 1) as nat);
        match rest_number(props[n - 1].name) {
            Some(k) => {
                lemma_insert_rest_entries(
                    rest_pairs(props, (n - 1) as nat),
                    k,
                    (n - 1) as nat,
                );
            },
            None => {},
        }
    }
}

proof fn lemma_insert_rest_entries(rest: Seq<(nat, nat)>, k: nat, col: nat)
    ensures
        insert_rest(rest, k, col).len() == rest.len() + 1,
        forall|i: int|
            0 <= i < insert_rest(rest, k, col).len() ==> #[trigger] insert_rest(rest, k, col)[i]
                == (k, col) || rest.contains(insert_rest(rest, k, col)[i]),
    decreases rest.len(),
{
    let all = insert_rest(rest, k, col);
    if rest.len() > 0 && rest.last().0 > k {
        lemma_insert_rest_entries(rest.drop_last(), k, col);
        let inner = insert_rest(rest.drop_last(), k, col);
        assert forall|i: int| 0 <= i < all.len() implies #[trigger] all[i] == (k, col)
            || rest.contains(all[i]) by {
            if i < inner.len() {
                assert(all[i] == inner[i]);
                if inner[i] != (k, col) {
                    let j = choose|j: int|
                        0 <= j < rest.drop_last().len() && rest.drop_last()[j] == inner[i];
                    assert(rest[j] == inner[i]);
                }
            } else {
                assert(all[i] == rest[rest.len() - 1]);
            }
        }
    } else {
        assert forall|i: int| 0 <= i < all.len() implies #[trigger] all[i] == (k, col)
            || rest.contains(all[i]) by {
            if i < rest.len() {
                assert(all[i] == rest[i]);
            }
        }
    }
}

/// Collects the columns of the higher-order color coefficients, by increasing number.
fn find_rest(props: &Vec<Property>) -> (rest: Vec<usize>)
    ensures
        rest@.map_values(|c: usize| c as nat) == rest_columns(props_model(props@)),
{
    let ghost model = props_model(props@);
    let mut pairs: Vec<(u32, usize)> = Vec::new();
    let mut col: usize = 0;
    assert(pairs_model(pairs@) =~= rest_pairs(model, 0));
    while col < props.len()
        invariant
            col <= props@.len(),
            model == props_model(props@),
            pairs_model(pairs@) == rest_pairs(model, col as nat),
        decreases props@.len() - col,
    {
        match parse_rest_number(&props[col].name) {
            Some(k) => {
                let mut at: usize = pairs.len();
                while at > 0 && pairs[at - 1].0 > k
                    invariant
                        at <= pairs@.len(),
                        forall|i: int| at <= i < pairs@.len() ==> k < (#[trigger] pairs@[i]).0,
                    decreases at,
                {
                    at -= 1;
                }
                proof {
                    let before = pairs_model(pairs@);
                    assert forall|i: int| at <= i < before.len() implies k < (
                    #[trigger] before[i]).0 by {
                        assert(k < pairs@[i].0);
                    }
                    lemma_insert_rest(before, k as nat, col as nat, at as int);
                }
                let ghost before = pairs@;
                pairs.insert(at, (k, col));
                assert(pairs_model(pairs@) =~= pairs_model(before).insert(
                    at as int,
                    (k as nat, col as nat),
                ));
            },
            None => {},
        }
        col += 1;
    }
    let mut rest: Vec<usize> = Vec::new();
    let mut i: usize = 0;
    while i < pairs.len()
        invariant
            i <= pairs@.len(),
            rest@ == pairs@.take(i as int).map_values(|p: (u32, usize)| p.1),
        decreases pairs@.len() - i,
    {
        rest.push(pairs[i].1);
        assert(rest@ =~= pairs@.take(i + 1).map_values(|p: (u32, usize)| p.1));
        i += 1;
    }
    assert(rest@.map_values(|c: usize| c as nat) =~= rest_columns(model)) by {
        assert(rest_columns(model) =~= pairs_model(pairs@).map_values(|p: (nat, nat)| p.1));
    }
    rest
}

impl Layout {
    /// The columns, offsets and counts are those of the properties.
    pub open spec fn wf(self) -> bool {
        &&& self.columns@.len() == 14
        &&& forall|n: int|
            0 <= n < 14 ==> column(self@, #[trigger] required()[n]) == Some(
                self.columns@[n] as nat,
            )
        &&& self.offsets@.len() == self.props@.len()
        &&& forall|c: int|
            0 <= c < self.offsets@.len() ==> #[trigger] self.offsets@[c] == offset(self@, c as nat)
        &&& self.stride == stride(self@)
        &&& self.rest@.map_values(|c: usize| c as nat) == rest_columns(self@)
        &&& self.per_channel == per_channel(self@)
    }

    /// Finds the properties of a gaussian among those of a vertex. Fails with the first name that
    /// is missing, by its place among those that every file must have.
    pub fn new(props: Vec<Property>) -> (layout: Result<Layout, usize>)
        requires
            stride(props_model(props@)) <= usize::MAX,
        ensures
            match layout {
                Ok(layout) => layout.wf() && layout@ == props_model(props@),
                Err(n) => {
                    &&& n < 14
                    &&& column(props_model(props@), required()[n as int]) is None
                    &&& forall|m: int|
                        0 <= m < n ==> column(
                            props_model(props@),
                            #[trigger] required()[m],
                        ) is Some
                },
            },
    {
        let ghost model = props_model(props@);
        let mut columns: Vec<usize> = Vec::new();
        let mut n: usize = 0;
        while n < 14
            invariant
                n <= 14,
                model == props_model(props@),
                columns@.len() == n,
                forall|m: int|
                    0 <= m < n ==> column(model, #[trigger] required()[m]) == Some(
                        columns@[m] as nat,
                    ),
            decreases 14 - n,
        {
            match find_column(&props, required_name(n)) {
                Some(col) => {
                    columns.push(col);
                },
                None => {
                    return Err(n);
                },
            }
            n += 1;
        }
        let mut offsets: Vec<usize> = Vec::new();
        let mut size: usize = 0;
        let mut c: usize = 0;
        while c < props.len()
            invariant
                c <= props@.len(),
                model == props_model(props@),
                offset(model, model.len()) <= usize::MAX,
                offsets@.len() == c,
                size == offset(model, c as nat),
                forall|m: int| 0 <= m < c ==> #[trigger] offsets@[m] == offset(model, m as nat),
            decreases props@.len() - c,
        {
            offsets.push(size);
            proof {
                lemma_offset_grows(model, (c + 1) as nat, model.len());
            }
            size += props[c].size;
            c += 1;
        }
        let rest = find_rest(&props);
        let per_channel: usize = if rest.len() % 3 != 0 {
            0
        } else if rest.len() / 3 > 15 {
            15
        } else {
            rest.len() / 3
        };
        assert(rest@.map_values(|c: usize| c as nat).len() == rest@.len());
        Ok(Layout { props, columns, offsets, stride: size, rest, per_channel })
    }
}

/// The length of all lines together.
pub open spec fn total_len(lines: Seq<Seq<char>>) -> nat
    decreases lines.len(),
{
    if lines.len() == 0 {
        0
    } else {
        total_len(lines.drop_last()) + lines.last().len()
    }
}

proof fn lemma_total_len_prepend(first: Seq<char>, rest: Seq<Seq<char>>)
    ensures
        total_len(seq![first] + rest) == first.len() + total_len(rest),
    decreases rest.len(),
{
    let all = seq![first] + rest;
    if rest.len() == 0 {
        assert(all.drop_last() =~= Seq::<Seq<char>>::empty());
        assert(total_len(all.drop_last()) == 0);
    } else {
        assert(all.drop_last() =~= seq![first] + rest.drop_last());
        lemma_total_len_prepend(first, rest.drop_last());
    }
}

/// The lines of a text are together no longer than the text.
proof fn lemma_lines_total(text: Seq<char>)
    ensures
        total_len(lines_of(text)) <= text.len(),
    decreases text.len(),
{
    let n = line_len(text) as int;
    if text.len() > 0 {
        if n < text.len() {
            lemma_lines_total(text.skip(n + 1));
            lemma_total_len_prepend(without_cr(text.take(n)), lines_of(text.skip(n + 1)));
        } else {
            assert(seq![text] =~= seq![text] + Seq::<Seq<char>>::empty());
            lemma_total_len_prepend(text, seq![]);
        }
    }
}

proof fn lemma_first_word_len(line: Seq<char>)
    ensures
        words_of(line).len() > 0 ==> words_of(line)[0].len() <= line.len(),
    decreases line.len(),
{
    lemma_word_len_bound(line);
    if line.len() > 0 && word_len(line) == 0 {
        lemma_first_word_len(line.drop_first());
    }
}

proof fn lemma_offset_prefix(props: Seq<PropertyModel>, more: Seq<PropertyModel>, n: nat)
    requires
        n <= props.len() <= more.len(),
        forall|i: int| 0 <= i < props.len() ==> props[i] == more[i],
    ensures
        offset(more, n) == offset(props, n),
    decreases n,
{
    if n > 0 {
        lemma_offset_prefix(props, more, (n - 1) as nat);
    }
}

proof fn lemma_stride_of_lines(lines: Seq<Seq<char>>)
    ensures
        stride(header_of(lines).props) <= total_len(lines),
    decreases lines.len(),
{
    if lines.len() > 0 {
        let before = header_of(lines.drop_last());
        let after = header_of(lines);
        lemma_stride_of_lines(lines.drop_last());
        if after.props != before.props {
            lemma_first_word_len(lines.last());
            reveal_strlit("property");
            lemma_offset_prefix(before.props, after.props, before.props.len());
        }
    }
}

/// A header is longer than the records that it declares.
pub(crate) proof fn lemma_stride_of_header(text: Seq<char>)
    ensures
        stride(header_of(lines_of(text)).props) <= text.len(),
{
    lemma_lines_total(text);
    lemma_stride_of_lines(lines_of(text));
}

/// A property that is found is one of the record's.
pub(crate) proof fn lemma_column_bound(props: Seq<PropertyModel>, name: Seq<char>)
    requires
        column(props, name) is Some,
    ensures
        column(props, name)->0 < props.len(),
{
    lemma_named_from_bound(props, name, 0);
}

proof fn lemma_named_from_bound(props: Seq<PropertyModel>, name: Seq<char>, from: nat)
    ensures
        named_from(props, name, from) is Some ==> named_from(props, name, from)->0 < props.len(),
    decreases props.len() - from,
{
    if from < props.len() {
        lemma_named_from_bound(props, name, from + 1);
    }
}

/// The higher-order color coefficients are among the record's properties.
pub(crate) proof fn lemma_rest_bound(props: Seq<PropertyModel>)
    ensures
        rest_columns(props).len() <= props.len(),
        forall|i: int|
            0 <= i < rest_columns(props).len() ==> #[trigger] rest_columns(props)[i] < props.len(),
{
    lemma_rest_pairs_bound(props, props.len());
}

/// A property does not begin before one that precedes it.
pub(crate) proof fn lemma_offset_grows(props: Seq<PropertyModel>, a: nat, b: nat)
    requires
        a <= b,
    ensures
        offset(props, a) <= offset(props, b),
    decreases b - a,
{
    if a < b {
        lemma_offset_grows(props, a, (b - 1) as nat);
    }
}

/// A higher-order color coefficient that is used stands among those of the file.
pub(crate) proof fn lemma_sh_place(props: Seq<PropertyModel>, m: int)
    requires
        0 <= m < 45,
        m % 15 < per_channel(props),
    ensures
        0 <= m / 15 * channel_stride(props),
        m / 15 * channel_stride(props) + m % 15 < rest_columns(props).len(),
        sh_column(props, m) < props.len(),
{
    let channel = channel_stride(props) as int;
    assert(0 <= m / 15 * channel <= 2 * channel) by (nonlinear_arith)
        requires
            0 <= m < 45,
            0 <= channel,
    ;
    lemma_rest_bound(props);
}

} // verus!
