//! The vertices of a `.ply` file.

use vstd::prelude::*;

use crate::ply::header::PropertyModel;
use crate::ply::layout::{
    column, gaussian_of, is_read, lemma_column_bound, lemma_sh_place, offset, per_channel,
    required, rest_columns, sh_column, sh_of, Layout,
};
use crate::scene::Gaussian;

verus! {

/// The 32-bit word at `at`, least significant byte first.
pub open spec fn word_at(bytes: Seq<u8>, at: int) -> u32 {
    (bytes[at] + 0x100 * bytes[at + 1] + 0x1_0000 * bytes[at + 2] + 0x100_0000 * bytes[at
        + 3]) as u32
}

/// Reads the 32-bit word at `at`, least significant byte first.
fn read_word(bytes: &[u8], at: usize) -> (word: u32)
    requires
        at + 4 <= bytes@.len(),
    ensures
        word == word_at(bytes@, at as int),
{
    assert(bytes.len() >= at + 4);
    bytes[at] as u32 + 0x100 * bytes[at + 1] as u32 + 0x1_0000 * bytes[at + 2] as u32 + 0x100_0000
        * bytes[at + 3] as u32
}

/// The numbers of one vertex.
pub enum Row<'a> {
    /// A record of a binary body, which begins at `base`.
    Record { bytes: &'a [u8], base: usize },
    /// The numbers of a line of a text body, one for each column.
    Numbers { numbers: &'a [u32] },
}

impl<'a> Row<'a> {
    /// Whether the column can be read: every number of a record takes four bytes, whatever the
    /// size of its property.
    pub open spec fn has(self, props: Seq<PropertyModel>, col: nat) -> bool {
        match self {
            Row::Record { bytes, base } => base + offset(props, col) + 4 <= bytes@.len(),
            Row::Numbers { numbers } => col < numbers@.len(),
        }
    }

    /// The number in the column.
    pub open spec fn value(self, props: Seq<PropertyModel>, col: nat) -> u32 {
        match self {
            Row::Record { bytes, base } => word_at(bytes@, base + offset(props, col)),
            Row::Numbers { numbers } => numbers@[col as int],
        }
    }
}

impl Layout {
    /// The number in the column.
    fn read(&self, row: &Row, col: usize) -> (bits: u32)
        requires
            self.wf(),
            col < self@.len(),
            row.has(self@, col as nat),
        ensures
            bits == row.value(self@, col as nat),
    {
        match row {
            Row::Record { bytes, base } => {
                assert(self.offsets@[col as int] == offset(self@, col as nat));
                assert(bytes.len() >= base + self.offsets@[col as int] + 4);
                read_word(bytes, *base + self.offsets[col])
            },
            Row::Numbers { numbers } => numbers[col],
        }
    }

    /// The number of the property at `n` among those that every file must have.
    fn read_required(&self, row: &Row, n: usize) -> (bits: u32)
        requires
            self.wf(),
            n < 14,
            forall|col: nat| is_read(self@, col) ==> #[trigger] row.has(self@, col),
        ensures
            bits == row.value(self@, column(self@, required()[n as int])->0),
    {
        let col: usize = self.columns[n];
        assert(column(self@, required()[n as int]) == Some(col as nat));
        proof {
            lemma_column_bound(self@, required()[n as int]);
            assert(is_read(self@, col as nat));
        }
        self.read(row, col)
    }

    /// The higher-order color coefficients of a vertex.
    fn sh(&self, row: &Row) -> (sh: Option<[u32; 45]>)
        requires
            self.wf(),
            forall|col: nat| is_read(self@, col) ==> #[trigger] row.has(self@, col),
        ensures
            sh is Some <==> sh_of(self@, |col: nat| row.value(self@, col)) is Some,
            sh is Some ==> (sh->0)@ == sh_of(self@, |col: nat| row.value(self@, col))->0,
    {
        if self.per_channel == 0 {
            return None;
        }
        let channel: usize = self.rest.len() / 3;
        let ghost model = sh_of(self@, |col: nat| row.value(self@, col))->0;
        assert(self.rest@.map_values(|c: usize| c as nat).len() == self.rest@.len());
        let mut sh: [u32; 45] = [0; 45];
        let mut m: usize = 0;
        while m < 45
            invariant
                m <= 45,
                self.wf(),
                self.per_channel > 0,
                channel == self.rest@.len() / 3,
                self.rest@.map_values(|c: usize| c as nat).len() == self.rest@.len(),
                forall|col: nat| is_read(self@, col) ==> #[trigger] row.has(self@, col),
                model == sh_of(self@, |col: nat| row.value(self@, col))->0,
                sh@.len() == 45,
                forall|i: int| 0 <= i < m ==> sh@[i] == #[trigger] model[i],
                forall|i: int| m <= i < 45 ==> #[trigger] sh@[i] == 0,
            decreases 45 - m,
        {
            if m % 15 < self.per_channel {
                proof {
                    lemma_sh_place(self@, m as int);
                    assert(m / 15 * channel + m % 15 < self.rest.len());
                }
                let col: usize = self.rest[m / 15 * channel + m % 15];
                assert(col as nat == sh_column(self@, m as int)) by {
                    assert(self.rest@.map_values(|c: usize| c as nat)[m / 15 * channel + m % 15]
                        == col as nat);
                }
                assert(is_read(self@, col as nat));
                sh[m] = self.read(row, col);
            }
            assert(sh@[m as int] == model[m as int]);
            m += 1;
        }
        assert(sh@ =~= model);
        Some(sh)
    }

    /// The gaussian of a vertex.
    pub fn gaussian(&self, row: &Row) -> (gaussian: Gaussian)
        requires
            self.wf(),
            forall|col: nat| is_read(self@, col) ==> #[trigger] row.has(self@, col),
        ensures
            gaussian@ == gaussian_of(self@, |col: nat| row.value(self@, col)),
    {
        let gaussian = Gaussian {
            mean: [
                self.read_required(row, 0),
                self.read_required(row, 1),
                self.read_required(row, 2),
            ],
            log_scale: [
                self.read_required(row, 3),
                self.read_required(row, 4),
                self.read_required(row, 5),
            ],
            quat: [
                self.read_required(row, 6),
                self.read_required(row, 7),
                self.read_required(row, 8),
                self.read_required(row, 9),
            ],
            color_dc: [
                self.read_required(row, 10),
                self.read_required(row, 11),
                self.read_required(row, 12),
            ],
            opacity_raw: self.read_required(row, 13),
            sh: self.sh(row),
        };
        assert(gaussian@ =~= gaussian_of(self@, |col: nat| row.value(self@, col)));
        gaussian
    }
}

} // verus!
