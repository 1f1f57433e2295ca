//! Records as the GPU reads them: 32-bit words, one right behind the other.

use vstd::prelude::*;

use crate::bits::ZERO;
use crate::ply::body::word_at;
use crate::scene::{Background, InstanceRaw};

verus! {

/// The size in bytes of an instance record.
pub const INSTANCE_STRIDE: u64 = 48;

/// The 32-bit word at `at`, most significant byte first.
pub open spec fn word_at_be(bytes: Seq<u8>, at: int) -> u32 {
    (bytes[at + 3] + 0x100 * bytes[at + 2] + 0x1_0000 * bytes[at + 1] + 0x100_0000 * bytes[at]) as u32
}

/// Whether the bytes are those of the words, in the machine's byte order: each word takes four
/// bytes, and either all have the least significant byte first, or all have it last.
pub open spec fn are_bytes_of(bytes: Seq<u8>, words: Seq<u32>) -> bool {
    &&& bytes.len() == 4 * words.len()
    &&& {
        ||| forall|i: int| 0 <= i < words.len() ==> word_at(bytes, 4 * i) == #[trigger] words[i]
        ||| forall|i: int| 0 <= i < words.len() ==> word_at_be(bytes, 4 * i) == #[trigger] words[i]
    }
}

/// `bytemuck::cast_slice` from 32-bit words to bytes: the words as they stand in memory. Which of
/// the two byte orders they have is left to the machine.
#[verifier::external_body]
fn bytes_of_words(words: &[u32]) -> (bytes: Vec<u8>)
    ensures
        are_bytes_of(bytes@, words@),
{
    bytemuck::cast_slice::<u32, u8>(words).to_vec()
}

/// The words of an instance record: the center, half the quad's size, the conic, the opacity, the
/// color and the depth.
pub open spec fn record_words(instance: InstanceRaw) -> Seq<u32> {
    instance.mu2d@ + instance.half_extent@ + instance.conic@ + seq![instance.opacity]
        + instance.color@ + seq![instance.depth]
}

/// The words of the first `n` instance records.
pub open spec fn instance_words(instances: Seq<InstanceRaw>, n: nat) -> Seq<u32>
    decreases n,
{
    if n == 0 {
        seq![]
    } else {
        instance_words(instances, (n - 1) as nat) + record_words(instances[n - 1])
    }
}

/// Instance records as the GPU reads them.
pub fn instance_bytes(instances: &[InstanceRaw]) -> (bytes: Vec<u8>)
    ensures
        are_bytes_of(bytes@, instance_words(instances@, instances@.len())),
{
    let mut words: Vec<u32> = Vec::new();
    let mut i: usize = 0;
    while i < instances.len()
        invariant
            i <= instances@.len(),
            words@ == instance_words(instances@, i as nat),
        decreases instances@.len() - i,
    {
        let ghost before = words@;
        let instance = instances[i];
        words.push(instance.mu2d[0]);
        words.push(instance.mu2d[1]);
        words.push(instance.half_extent[0]);
        words.push(instance.half_extent[1]);
        words.push(instance.conic[0]);
        words.push(instance.conic[1]);
        words.push(instance.conic[2]);
        words.push(instance.opacity);
        words.push(instance.color[0]);
        words.push(instance.color[1]);
        words.push(instance.color[2]);
        words.push(instance.depth);
        assert(words@ =~= before + record_words(instances@[i as int]));
        i += 1;
    }
    bytes_of_words(words.as_slice())
}

/// The image size that the vertex stage reads: width and height as numbers, and two words of
/// padding.
pub fn globals_bytes(viewport: [u32; 2]) -> (bytes: Vec<u8>)
    ensures
        are_bytes_of(bytes@, viewport@ + seq![ZERO, ZERO]),
{
    let words: [u32; 4] = [viewport[0], viewport[1], ZERO, ZERO];
    assert(words@ =~= viewport@ + seq![ZERO, ZERO]);
    bytes_of_words(words.as_slice())
}

/// The background that the composite pass reads: the color, then the weight.
pub fn composite_bytes(bg: &Background) -> (bytes: Vec<u8>)
    ensures
        are_bytes_of(bytes@, bg.c_b@.push(bg.w_b)),
{
    let words: [u32; 4] = [bg.c_b[0], bg.c_b[1], bg.c_b[2], bg.w_b];
    assert(words@ =~= bg.c_b@.push(bg.w_b));
    bytes_of_words(words.as_slice())
}

/// The split that the side-by-side pass reads: the width of the left pane in pixels, and three
/// words of padding.
pub fn split_bytes(left_w: u32) -> (bytes: Vec<u8>)
    ensures
        are_bytes_of(bytes@, seq![left_w, 0u32, 0u32, 0u32]),
{
    let words: [u32; 4] = [left_w, 0, 0, 0];
    assert(words@ =~= seq![left_w, 0u32, 0u32, 0u32]);
    bytes_of_words(words.as_slice())
}

proof fn lemma_instance_words_len(instances: Seq<InstanceRaw>, n: nat)
    ensures
        instance_words(instances, n).len() == 12 * n,
    decreases n,
{
    if n > 0 {
        lemma_instance_words_len(instances, (n - 1) as nat);
    }
}

/// Record `i` of a list of instances takes the words from `12 * i` on: every record has the same
/// size, and its parts stand at the same places.
pub proof fn lemma_instance_record(instances: Seq<InstanceRaw>, n: nat, i: int)
    requires
        0 <= i < n,
    ensures
        instance_words(instances, n).len() == 12 * n,
        4 * instance_words(instances, n).len() == INSTANCE_STRIDE * n,
        instance_words(instances, n).subrange(12 * i, 12 * i + 12) == record_words(instances[i]),
    decreases n,
{
    lemma_instance_words_len(instances, n);
    lemma_instance_words_len(instances, (n - 1) as nat);
    let all = instance_words(instances, n);
    let before = instance_words(instances, (n - 1) as nat);
    if i == n - 1 {
        assert(all.subrange(12 * i, 12 * i + 12) =~= record_words(instances[i]));
    } else {
        lemma_instance_record(instances, (n - 1) as nat, i);
        assert(all.subrange(12 * i, 12 * i + 12) =~= before.subrange(12 * i, 12 * i + 12));
    }
}

/// A part of an instance record that the vertex stage reads: where it is bound, where it begins in
/// the record, and how many numbers it has.
#[derive(Clone, Copy, Debug, PartialEq, Eq, Structural)]
pub struct Attribute {
    pub location: u32,
    /// In bytes.
    pub offset: u64,
    pub numbers: u32,
}

/// The parts of an instance record that the vertex stage reads: the center, half the quad's size,
/// the conic, the opacity and the color. The depth is not among them.
pub open spec fn attributes() -> Seq<Attribute> {
    seq![
        Attribute { location: 0, offset: 0, numbers: 2 },
        Attribute { location: 1, offset: 8, numbers: 2 },
        Attribute { location: 2, offset: 16, numbers: 3 },
        Attribute { location: 3, offset: 28, numbers: 1 },
        Attribute { location: 4, offset: 32, numbers: 3 },
    ]
}

/// The parts of an instance record that the vertex stage reads.
pub fn instance_attributes() -> (all: Vec<Attribute>)
    ensures
        all@ == attributes(),
{
    let all: Vec<Attribute> = vec![
        Attribute { location: 0, offset: 0, numbers: 2 },
        Attribute { location: 1, offset: 8, numbers: 2 },
        Attribute { location: 2, offset: 16, numbers: 3 },
        Attribute { location: 3, offset: 28, numbers: 1 },
        Attribute { location: 4, offset: 32, numbers: 3 },
    ];
    assert(all@ =~= attributes());
    all
}

/// The numbers that an attribute selects from a record.
pub open spec fn attribute_words(record: Seq<u32>, attribute: Attribute) -> Seq<u32> {
    record.subrange(attribute.offset as int / 4, attribute.offset as int / 4 + attribute.numbers)
}

/// What the vertex stage reads at each location is the part of the instance that is meant for it.
pub proof fn lemma_attributes_select_parts(instance: InstanceRaw)
    ensures
        attribute_words(record_words(instance), attributes()[0]) == instance.mu2d@,
        attribute_words(record_words(instance), attributes()[1]) == instance.half_extent@,
        attribute_words(record_words(instance), attributes()[2]) == instance.conic@,
        attribute_words(record_words(instance), attributes()[3]) == seq![instance.opacity],
        attribute_words(record_words(instance), attributes()[4]) == instance.color@,
        forall|i: int|
            0 <= i < 5 ==> (#[trigger] attributes()[i]).offset % 4 == 0 && attributes()[i].offset
                + 4 * attributes()[i].numbers <= INSTANCE_STRIDE,
{
    let record = record_words(instance);
    assert(attribute_words(record, attributes()[0]) =~= instance.mu2d@);
    assert(attribute_words(record, attributes()[1]) =~= instance.half_extent@);
    assert(attribute_words(record, attributes()[2]) =~= instance.conic@);
    assert(attribute_words(record, attributes()[3]) =~= seq![instance.opacity]);
    assert(attribute_words(record, attributes()[4]) =~= instance.color@);
}

/// An instance record has all numbers of the instance, each as it is: the depth comes last.
pub proof fn lemma_record_numbers(instance: InstanceRaw)
    ensures
        record_words(instance) == seq![
            instance.mu2d@[0],
            instance.mu2d@[1],
            instance.half_extent@[0],
            instance.half_extent@[1],
            instance.conic@[0],
            instance.conic@[1],
            instance.conic@[2],
            instance.opacity,
            instance.color@[0],
            instance.color@[1],
            instance.color@[2],
            instance.depth,
        ],
{
    assert(record_words(instance) =~= seq![
        instance.mu2d@[0],
        instance.mu2d@[1],
        instance.half_extent@[0],
        instance.half_extent@[1],
        instance.conic@[0],
        instance.conic@[1],
        instance.conic@[2],
        instance.opacity,
        instance.color@[0],
        instance.color@[1],
        instance.color@[2],
        instance.depth,
    ]);
}

/// The records of a joined list are those of its parts, one after the other.
pub proof fn lemma_instances_joined(a: Seq<InstanceRaw>, b: Seq<InstanceRaw>, n: nat)
    requires
        n <= b.len(),
    ensures
        instance_words(a + b, a.len() + n) == instance_words(a, a.len()) + instance_words(b, n),
    decreases n,
{
    if n == 0 {
        lemma_instances_prefix(a, b, a.len());
        assert(instance_words(a, a.len()) + instance_words(b, 0) =~= instance_words(a, a.len()));
    } else {
        let m = (n - 1) as nat;
        lemma_instances_joined(a, b, m);
        assert((a + b)[a.len() + m as int] == b[m as int]);
        assert(instance_words(a + b, a.len() + n) =~= instance_words(a, a.len()) + instance_words(
            b,
            n,
        ));
    }
}

proof fn lemma_instances_prefix(a: Seq<InstanceRaw>, b: Seq<InstanceRaw>, n: nat)
    requires
        n <= a.len(),
    ensures
        instance_words(a + b, n) == instance_words(a, n),
    decreases n,
{
    if n > 0 {
        lemma_instances_prefix(a, b, (n - 1) as nat);
    }
}

/// The bytes of words are their digits to the base 256: from the lowest to the highest in all of
/// them, or from the highest to the lowest in all of them.
pub proof fn lemma_bytes_are_digits(bytes: Seq<u8>, words: Seq<u32>)
    requires
        are_bytes_of(bytes, words),
    ensures
        bytes.len() == 4 * words.len(),
        ({
            ||| forall|i: int|
                0 <= i < words.len() ==> {
                    &&& bytes[4 * i] == #[trigger] words[i] % 0x100
                    &&& bytes[4 * i + 1] == words[i] / 0x100 % 0x100
                    &&& bytes[4 * i + 2] == words[i] / 0x1_0000 % 0x100
                    &&& bytes[4 * i + 3] == words[i] / 0x100_0000
                }
            ||| forall|i: int|
                0 <= i < words.len() ==> {
                    &&& bytes[4 * i + 3] == #[trigger] words[i] % 0x100
                    &&& bytes[4 * i + 2] == words[i] / 0x100 % 0x100
                    &&& bytes[4 * i + 1] == words[i] / 0x1_0000 % 0x100
                    &&& bytes[4 * i] == words[i] / 0x100_0000
                }
        }),
{
    if forall|i: int| 0 <= i < words.len() ==> word_at(bytes, 4 * i) == #[trigger] words[i] {
        assert forall|i: int| 0 <= i < words.len() implies {
            &&& bytes[4 * i] == #[trigger] words[i] % 0x100
            &&& bytes[4 * i + 1] == words[i] / 0x100 % 0x100
            &&& bytes[4 * i + 2] == words[i] / 0x1_0000 % 0x100
            &&& bytes[4 * i + 3] == words[i] / 0x100_0000
        } by {
            assert(word_at(bytes, 4 * i) == words[i]);
            lemma_digits(
                bytes[4 * i],
                bytes[4 * i + 1],
                bytes[4 * i + 2],
                bytes[4 * i + 3],
                words[i],
            );
        }
    } else {
        assert forall|i: int| 0 <= i < words.len() implies {
            &&& bytes[4 * i + 3] == #[trigger] words[i] % 0x100
            &&& bytes[4 * i + 2] == words[i] / 0x100 % 0x100
            &&& bytes[4 * i + 1] == words[i] / 0x1_0000 % 0x100
            &&& bytes[4 * i] == words[i] / 0x100_0000
        } by {
            assert(word_at_be(bytes, 4 * i) == words[i]);
            lemma_digits(
                bytes[4 * i + 3],
                bytes[4 * i + 2],
                bytes[4 * i + 1],
                bytes[4 * i],
                words[i],
            );
        }
    }
}

proof fn lemma_digits(a: u8, b: u8, c: u8, d: u8, word: u32)
    requires
        word == a + 0x100 * b + 0x1_0000 * c + 0x100_0000 * d,
    ensures
        a == word % 0x100,
        b == word / 0x100 % 0x100,
        c == word / 0x1_0000 % 0x100,
        d == word / 0x100_0000,
{
}

} // verus!
