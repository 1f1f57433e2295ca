//! The text header of a `.ply` file.

use vstd::prelude::*;
use vstd::slice::slice_subrange;

use crate::ply::layout::{lemma_stride_of_header, stride};
use crate::text::{
    begins_with, decode_lossy, lines, lines_of, parse_unsigned, same_chars, same_text,
    starts_with, text_of, unsigned_of, words, words_of,
};

verus! {

/// A property of the `vertex` element: its name and its size in bytes.
pub struct Property {
    pub name: Vec<char>,
    pub size: usize,
}

/// What a [`Property`] says, as a mathematical value.
#[verifier::ext_equal]
pub struct PropertyModel {
    pub name: Seq<char>,
    pub size: nat,
}

impl View for Property {
    type V = PropertyModel;

    open spec fn view(&self) -> PropertyModel {
        PropertyModel { name: self.name@, size: self.size as nat }
    }
}

/// What a list of properties says.
pub open spec fn props_model(props: Seq<Property>) -> Seq<PropertyModel> {
    props.map_values(|p: Property| p@)
}

/// What a list of texts says.
pub open spec fn texts_model(texts: Seq<Vec<char>>) -> Seq<Seq<char>> {
    texts.map_values(|t: Vec<char>| t@)
}

/// What the lines of a header say of the file.
pub struct Header {
    /// The body is text.
    pub ascii: bool,
    /// The body is binary with the most significant byte first.
    pub big_endian: bool,
    /// The number of vertices.
    pub count: usize,
    /// The element that was declared last is `vertex`.
    pub in_vertex: bool,
    /// The properties of the `vertex` element, in the order of their declaration.
    pub props: Vec<Property>,
    /// The types of vertex properties that have no known size, each once.
    pub unknown: Vec<Vec<char>>,
}

/// What a [`Header`] says, as a mathematical value.
#[verifier::ext_equal]
pub struct HeaderModel {
    pub ascii: bool,
    pub big_endian: bool,
    pub count: nat,
    pub in_vertex: bool,
    pub props: Seq<PropertyModel>,
    pub unknown: Seq<Seq<char>>,
}

impl View for Header {
    type V = HeaderModel;

    open spec fn view(&self) -> HeaderModel {
        HeaderModel {
            ascii: self.ascii,
            big_endian: self.big_endian,
            count: self.count as nat,
            in_vertex: self.in_vertex,
            props: props_model(self.props@),
            unknown: texts_model(self.unknown@),
        }
    }
}

/// The size in bytes of a property of the type `ty`, if the type is known.
pub open spec fn type_size_of(ty: Seq<char>) -> Option<nat> {
    if ty == "char"@ || ty == "uchar"@ || ty == "int8"@ || ty == "uint8"@ {
        Some(1)
    } else if ty == "short"@ || ty == "ushort"@ || ty == "int16"@ || ty == "uint16"@ || ty == "half"@
        || ty == "float16"@ {
        Some(2)
    } else if ty == "int"@ || ty == "uint"@ || ty == "int32"@ || ty == "uint32"@ || ty == "float"@
        || ty == "float32"@ {
        Some(4)
    } else if ty == "double"@ || ty == "float64"@ {
        Some(8)
    } else {
        None
    }
}

/// The size in bytes of a property of the type `ty`, if the type is known.
pub fn type_size(ty: &[char]) -> (size: Option<usize>)
    ensures
        size is Some <==> type_size_of(ty@) is Some,
        size is Some ==> size->0 == type_size_of(ty@)->0,
{
    if same_text(ty, "char") || same_text(ty, "uchar") || same_text(ty, "int8") || same_text(
        ty,
        "uint8",
    ) {
        Some(1)
    } else if same_text(ty, "short") || same_text(ty, "ushort") || same_text(ty, "int16")
        || same_text(ty, "uint16") || same_text(ty, "half") || same_text(ty, "float16") {
        Some(2)
    } else if same_text(ty, "int") || same_text(ty, "uint") || same_text(ty, "int32") || same_text(
        ty,
        "uint32",
    ) || same_text(ty, "float") || same_text(ty, "float32") {
        Some(4)
    } else if same_text(ty, "double") || same_text(ty, "float64") {
        Some(8)
    } else {
        None
    }
}

/// A header of which no line has been read.
pub open spec fn empty_header() -> HeaderModel {
    HeaderModel {
        ascii: false,
        big_endian: false,
        count: 0,
        in_vertex: false,
        props: seq![],
        unknown: seq![],
    }
}

/// The property that a line of a `vertex` element declares. A type of unknown size takes four
/// bytes.
pub open spec fn declared_property(ty: Seq<char>, name: Seq<char>) -> PropertyModel {
    PropertyModel {
        name,
        size: match type_size_of(ty) {
            Some(size) => size,
            None => 4,
        },
    }
}

/// What is known of the file once a line of these words has been read too.
///
/// - `format F ...` says whether the body is text or has the most significant byte first.
/// - `element E N` begins an element; for `vertex`, `N` is the number of vertices, or zero where
///   it cannot be read.
/// - `property T P` declares a property if it stands under `vertex`.
/// - Any other line says nothing.
pub open spec fn after_line(h: HeaderModel, words: Seq<Seq<char>>) -> HeaderModel {
    if words.len() >= 2 && words[0] == "format"@ {
        HeaderModel {
            ascii: begins_with(words[1], "ascii"@),
            big_endian: begins_with(words[1], "binary_big"@),
            ..h
        }
    } else if words.len() == 3 && words[0] == "element"@ {
        if words[1] == "vertex"@ {
            HeaderModel {
                in_vertex: true,
                count: match unsigned_of(words[2], usize::MAX as nat) {
                    Some(n) => n,
                    None => 0,
                },
                ..h
            }
        } else {
            HeaderModel { in_vertex: false, ..h }
        }
    } else if words.len() == 3 && words[0] == "property"@ && h.in_vertex {
        HeaderModel {
            props: h.props.push(declared_property(words[1], words[2])),
            unknown: if type_size_of(words[1]) is None && !h.unknown.contains(words[1]) {
                h.unknown.push(words[1])
            } else {
                h.unknown
            },
            ..h
        }
    } else {
        h
    }
}

/// What the given lines say of the file.
pub open spec fn header_of(lines: Seq<Seq<char>>) -> HeaderModel
    decreases lines.len(),
{
    if lines.len() == 0 {
        empty_header()
    } else {
        after_line(header_of(lines.drop_last()), words_of(lines.last()))
    }
}

/// The bytes of `end_header` and a line feed.
pub open spec fn marker() -> Seq<u8> {
    seq![101, 110, 100, 95, 104, 101, 97, 100, 101, 114, 10]
}

/// Whether the end marker of the header begins at `at`.
pub open spec fn marker_at(bytes: Seq<u8>, at: int) -> bool {
    0 <= at && at + 11 <= bytes.len() && bytes.subrange(at, at + 11) == marker()
}

/// Where the first end marker at or behind `from` begins.
pub open spec fn marker_from(bytes: Seq<u8>, from: nat) -> Option<nat>
    decreases bytes.len() - from,
{
    if from + 11 > bytes.len() {
        None
    } else if marker_at(bytes, from as int) {
        Some(from)
    } else {
        marker_from(bytes, from + 1)
    }
}

/// Where the header ends: at the first end marker.
pub open spec fn header_end(bytes: Seq<u8>) -> Option<nat> {
    marker_from(bytes, 0)
}

/// What the header of a file that ends its header at `end` says.
pub open spec fn header_before(bytes: Seq<u8>, end: nat) -> HeaderModel {
    header_of(lines_of(text_of(bytes.take(end as int))))
}

/// Whether `unknown` holds `ty`.
fn holds_type(unknown: &Vec<Vec<char>>, ty: &Vec<char>) -> (yes: bool)
    ensures
        yes == texts_model(unknown@).contains(ty@),
{
    let ghost model = texts_model(unknown@);
    let mut i: usize = 0;
    while i < unknown.len()
        invariant
            i <= unknown@.len(),
            model == texts_model(unknown@),
            forall|k: int| 0 <= k < i ==> model[k] != ty@,
        decreases unknown@.len() - i,
    {
        if same_chars(unknown[i].as_slice(), ty.as_slice()) {
            assert(model[i as int] == ty@);
            return true;
        }
        i += 1;
    }
    false
}

impl Header {
    /// A header of which no line has been read.
    fn empty() -> (header: Header)
        ensures
            header@ == empty_header(),
    {
        let header = Header {
            ascii: false,
            big_endian: false,
            count: 0,
            in_vertex: false,
            props: Vec::new(),
            unknown: Vec::new(),
        };
        assert(header@ =~= empty_header());
        header
    }

    /// Takes in one line of the header.
    pub fn read_line(&mut self, line: &[char])
        ensures
            final(self)@ == after_line(old(self)@, words_of(line@)),
    {
        let mut found = words(line);
        let ghost model = words_of(line@);
        assert(model.len() == found@.len());
        assert forall|i: int| 0 <= i < found@.len() implies #[trigger] found@[i]@ == model[i] by {
            assert(found@[i].deep_view() =~= found@[i]@);
            assert(found.deep_view()[i] == found@[i].deep_view());
        }
        if found.len() >= 2 && same_text(found[0].as_slice(), "format") {
            self.ascii = starts_with(found[1].as_slice(), "ascii");
            self.big_endian = starts_with(found[1].as_slice(), "binary_big");
        } else if found.len() == 3 && same_text(found[0].as_slice(), "element") {
            self.in_vertex = same_text(found[1].as_slice(), "vertex");
            if self.in_vertex {
                self.count = match parse_unsigned(found[2].as_slice(), usize::MAX as u64) {
                    Some(n) => n as usize,
                    None => 0,
                };
            }
        } else if found.len() == 3 && self.in_vertex && same_text(found[0].as_slice(), "property") {
            let name = found.remove(2);
            let ty = found.remove(1);
            let size = match type_size(ty.as_slice()) {
                Some(size) => size,
                None => {
                    if !holds_type(&self.unknown, &ty) {
                        self.unknown.push(ty);
                        assert(self@.unknown =~= old(self)@.unknown.push(ty@));
                    }
                    4
                },
            };
            let ghost before = self@.props;
            let property = Property { name, size };
            self.props.push(property);
            assert(self@.props =~= before.push(property@));
        }
        assert(self@ =~= after_line(old(self)@, model));
    }
}

/// Where the first end marker begins.
pub fn find_header_end(bytes: &[u8]) -> (end: Option<usize>)
    ensures
        end is Some <==> header_end(bytes@) is Some,
        end is Some ==> end->0 == header_end(bytes@)->0 && end->0 + 11 <= bytes@.len(),
{
    let mut at: usize = 0;
    while bytes.len() >= 11 && at <= bytes.len() - 11
        invariant
            at <= bytes.len(),
            header_end(bytes@) == marker_from(bytes@, at as nat),
        decreases bytes.len() - at,
    {
        if bytes[at] == 101 && bytes[at + 1] == 110 && bytes[at + 2] == 100 && bytes[at + 3] == 95
            && bytes[at + 4] == 104 && bytes[at + 5] == 101 && bytes[at + 6] == 97 && bytes[at + 7]
            == 100 && bytes[at + 8] == 101 && bytes[at + 9] == 114 && bytes[at + 10] == 10 {
            assert(bytes@.subrange(at as int, at + 11) =~= marker());
            return Some(at);
        }
        assert(!marker_at(bytes@, at as int)) by {
            let part = bytes@.subrange(at as int, at + 11);
            assert(forall|k: int| 0 <= k < 11 ==> part[k] == bytes@[at + k]);
        }
        at += 1;
    }
    None
}

/// Reads the text of a header.
pub fn scan_header(text: &[char]) -> (header: Header)
    ensures
        header@ == header_of(lines_of(text@)),
        stride(header@.props) <= usize::MAX,
{
    let all = lines(text);
    let ghost model = lines_of(text@);
    assert(model.len() == all@.len());
    assert forall|i: int| 0 <= i < all@.len() implies #[trigger] all@[i]@ == model[i] by {
        assert(all@[i].deep_view() =~= all@[i]@);
        assert(all.deep_view()[i] == all@[i].deep_view());
    }
    let mut header = Header::empty();
    let mut i: usize = 0;
    while i < all.len()
        invariant
            i <= all@.len(),
            model.len() == all@.len(),
            forall|k: int| 0 <= k < all@.len() ==> #[trigger] all@[k]@ == model[k],
            header@ == header_of(model.take(i as int)),
        decreases all@.len() - i,
    {
        header.read_line(all[i].as_slice());
        assert(model.take(i + 1).drop_last() =~= model.take(i as int));
        i += 1;
    }
    assert(model.take(model.len() as int) =~= model);
    proof {
        lemma_stride_of_header(text@);
        assert(text.len() <= usize::MAX);
    }
    header
}

/// Reads the header that ends at `end`.
pub fn read_header(bytes: &[u8], end: usize) -> (header: Header)
    requires
        end <= bytes@.len(),
    ensures
        header@ == header_before(bytes@, end as nat),
        stride(header@.props) <= usize::MAX,
{
    let text = decode_lossy(slice_subrange(bytes, 0, end));
    assert(bytes@.subrange(0, end as int) =~= bytes@.take(end as int));
    scan_header(text.as_slice())
}

} // verus!
