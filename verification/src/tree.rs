//! From the objects of a document to its pages: the catalog, the root of the
//! page tree, and the walk over the tree.
use crate::error::{PdfError, Place, ValueKind, Violation, XRefFault};
use crate::number::Decimal;
use crate::page::{PDFPage, PageView};
use crate::pdf::{
    bytes_outcome, clone_dictionary, kind_of, lemma_values_view, object_at, pages_view,
    stream_data, values_view, ObjectTable, ObjectView, PDFDictionary, PDFObject, PDFStream,
    PDFValue, StreamView, ValueView,
};
use crate::scan::{bytes_eq, LF};
use crate::tokenizer::{PDFObjectHeader, XRefSectionView};
use crate::xref::records;
use vstd::prelude::*;

verus! {

pub open spec fn key_root() -> Seq<u8> {
    seq!['R' as u8, 'o' as u8, 'o' as u8, 't' as u8]
}

pub open spec fn key_w() -> Seq<u8> {
    seq!['W' as u8]
}

pub open spec fn key_size() -> Seq<u8> {
    seq!['S' as u8, 'i' as u8, 'z' as u8, 'e' as u8]
}

pub open spec fn key_pages() -> Seq<u8> {
    seq!['P' as u8, 'a' as u8, 'g' as u8, 'e' as u8, 's' as u8]
}

pub open spec fn key_kids() -> Seq<u8> {
    seq!['K' as u8, 'i' as u8, 'd' as u8, 's' as u8]
}

pub open spec fn key_type() -> Seq<u8> {
    seq!['T' as u8, 'y' as u8, 'p' as u8, 'e' as u8]
}

pub open spec fn key_contents() -> Seq<u8> {
    seq![
        'C' as u8,
        'o' as u8,
        'n' as u8,
        't' as u8,
        'e' as u8,
        'n' as u8,
        't' as u8,
        's' as u8,
    ]
}

pub open spec fn name_page() -> Seq<u8> {
    seq!['P' as u8, 'a' as u8, 'g' as u8, 'e' as u8]
}

/// The names that the engine looks up in dictionaries.
#[derive(Clone, Copy, Debug, PartialEq, Eq, Structural)]
pub enum Key {
    Root,
    W,
    Size,
    Pages,
    Kids,
    Type,
    Contents,
}

pub open spec fn key_bytes(key: Key) -> Seq<u8> {
    match key {
        Key::Root => key_root(),
        Key::W => key_w(),
        Key::Size => key_size(),
        Key::Pages => key_pages(),
        Key::Kids => key_kids(),
        Key::Type => key_type(),
        Key::Contents => key_contents(),
    }
}

/// The value under `key`.
pub fn lookup<'a>(dictionary: &'a PDFDictionary, key: Key) -> (r: Option<&'a PDFValue>)
    ensures
        r is Some <==> dictionary@.dom().contains(key_bytes(key)),
        r matches Some(value) ==> value@ == dictionary@[key_bytes(key)],
{
    match key {
        Key::Root => {
            let k: [u8; 4] = ['R' as u8, 'o' as u8, 'o' as u8, 't' as u8];
            assert(k@ =~= key_root());
            dictionary.get(&k)
        },
        Key::W => {
            let k: [u8; 1] = ['W' as u8];
            assert(k@ =~= key_w());
            dictionary.get(&k)
        },
        Key::Size => {
            let k: [u8; 4] = ['S' as u8, 'i' as u8, 'z' as u8, 'e' as u8];
            assert(k@ =~= key_size());
            dictionary.get(&k)
        },
        Key::Pages => {
            let k: [u8; 5] = ['P' as u8, 'a' as u8, 'g' as u8, 'e' as u8, 's' as u8];
            assert(k@ =~= key_pages());
            dictionary.get(&k)
        },
        Key::Kids => {
            let k: [u8; 4] = ['K' as u8, 'i' as u8, 'd' as u8, 's' as u8];
            assert(k@ =~= key_kids());
            dictionary.get(&k)
        },
        Key::Type => {
            let k: [u8; 4] = ['T' as u8, 'y' as u8, 'p' as u8, 'e' as u8];
            assert(k@ =~= key_type());
            dictionary.get(&k)
        },
        Key::Contents => {
            let k: [u8; 8] = [
                'C' as u8,
                'o' as u8,
                'n' as u8,
                't' as u8,
                'e' as u8,
                'n' as u8,
                't' as u8,
                's' as u8,
            ];
            assert(k@ =~= key_contents());
            dictionary.get(&k)
        },
    }
}

/// The object that `id` refers to.
pub open spec fn resolve(objects: Map<PDFObjectHeader, ObjectView>, id: PDFObjectHeader) -> Result<
    ObjectView,
    PdfError,
> {
    if objects.dom().contains(id) {
        Ok(objects[id])
    } else {
        Err(PdfError::UnresolvedReference { id })
    }
}

pub open spec fn object_outcome(r: Result<PDFObject, PdfError>) -> Result<ObjectView, PdfError> {
    match r {
        Ok(object) => Ok(object@),
        Err(e) => Err(e),
    }
}

/// A copy of the object that `id` refers to.
pub fn resolve_copy(objects: &ObjectTable, id: &PDFObjectHeader) -> (r: Result<
    PDFObject,
    PdfError,
>)
    ensures
        object_outcome(r) == resolve(objects@, *id),
{
    match objects.get(id) {
        Some(object) => Ok(object.duplicate()),
        None => Err(PdfError::UnresolvedReference { id: *id }),
    }
}

/// The reference under `Root`, where a dictionary holds one.
pub open spec fn root_reference(dictionary: Map<Seq<u8>, ValueView>) -> Option<PDFObjectHeader> {
    if dictionary.dom().contains(key_root()) {
        match dictionary[key_root()] {
            ValueView::ObjectReference(id) => Some(id),
            _ => None,
        }
    } else {
        None
    }
}

/// The number `n` as an unsigned integer: rounded towards zero, and zero in
/// place of a negative number.
pub open spec fn number_u64(n: Decimal) -> u64 {
    if n.negative {
        0
    } else {
        n.truncated() as u64
    }
}

/// The widths of `values` from `from` on, behind the widths `done`: each
/// value must be a number.
pub open spec fn widths_from(values: Seq<ValueView>, from: int, done: Seq<u64>) -> Result<
    Seq<u64>,
    PdfError,
>
    decreases values.len() - from,
{
    if from < 0 || from >= values.len() {
        Ok(done)
    } else {
        match values[from] {
            ValueView::Number(n) => widths_from(values, from + 1, done.push(number_u64(n))),
            other => Err(
                PdfError::TypeMismatch {
                    place: Place::W,
                    expected: ValueKind::Number,
                    got: kind_of(other),
                },
            ),
        }
    }
}

/// The field widths that the dictionary of a cross-reference stream states
/// under `W`.
pub open spec fn stream_widths(dictionary: Map<Seq<u8>, ValueView>) -> Result<Seq<u64>, PdfError> {
    if !dictionary.dom().contains(key_w()) {
        Err(PdfError::MissingDictEntry { key: Place::W })
    } else {
        match dictionary[key_w()] {
            ValueView::Array(values) => widths_from(values, 0, Seq::empty()),
            other => Err(
                PdfError::TypeMismatch {
                    place: Place::W,
                    expected: ValueKind::Array,
                    got: kind_of(other),
                },
            ),
        }
    }
}

/// Whether the dictionary of a cross-reference stream states a number under
/// `Size`.
pub open spec fn size_check(dictionary: Map<Seq<u8>, ValueView>) -> Result<(), PdfError> {
    if !dictionary.dom().contains(key_size()) {
        Err(PdfError::MissingDictEntry { key: Place::Size })
    } else {
        match dictionary[key_size()] {
            ValueView::Number(_) => Ok(()),
            other => Err(
                PdfError::TypeMismatch {
                    place: Place::Size,
                    expected: ValueKind::Number,
                    got: kind_of(other),
                },
            ),
        }
    }
}

/// The reference that a dictionary must hold under `key`.
pub open spec fn reference_under(dictionary: Map<Seq<u8>, ValueView>, key: Key, place: Place) -> Result<
    PDFObjectHeader,
    PdfError,
> {
    if !dictionary.dom().contains(key_bytes(key)) {
        Err(PdfError::MissingDictEntry { key: place })
    } else {
        match dictionary[key_bytes(key)] {
            ValueView::ObjectReference(id) => Ok(id),
            other => Err(
                PdfError::TypeMismatch {
                    place,
                    expected: ValueKind::ObjectReference,
                    got: kind_of(other),
                },
            ),
        }
    }
}

/// What the search for the catalog found, and the cross-reference section
/// that the document has behind the search.
pub struct RootFound {
    pub result: Result<ObjectView, PdfError>,
    pub xref_table: Option<XRefSectionView>,
}

/// The catalog by way of a cross-reference stream with the dictionary
/// `dictionary`, given what decoding made of the bytes of the stream: the
/// records of the stream become the cross-reference section, and the
/// reference under `Root` leads to the catalog.
pub open spec fn root_from_stream(
    objects: Map<PDFObjectHeader, ObjectView>,
    xref_table: Option<XRefSectionView>,
    dictionary: Map<Seq<u8>, ValueView>,
    payload: Result<Seq<u8>, PdfError>,
) -> RootFound {
    match stream_widths(dictionary) {
        Err(e) => RootFound { result: Err(e), xref_table },
        Ok(widths) => match size_check(dictionary) {
            Err(e) => RootFound { result: Err(e), xref_table },
            Ok(_) => match payload {
                Err(e) => RootFound { result: Err(e), xref_table },
                Ok(data) => match records(data, widths) {
                    Err(e) => RootFound { result: Err(e), xref_table },
                    Ok(entries) => RootFound {
                        result: match reference_under(dictionary, Key::Root, Place::Root) {
                            Ok(id) => resolve(objects, id),
                            Err(e) => Err(e),
                        },
                        xref_table: Some(XRefSectionView { header: None, entries }),
                    },
                },
            },
        },
    }
}

/// The catalog of a document. Where the trailer holds a reference under
/// `Root`, that reference leads to it. Else `startxref` leads to a
/// cross-reference stream, whose dictionary holds the reference.
pub open spec fn find_root(
    objects: Map<PDFObjectHeader, ObjectView>,
    trailer: Option<Map<Seq<u8>, ValueView>>,
    startxref: Option<u64>,
    xref_table: Option<XRefSectionView>,
) -> RootFound {
    if trailer is Some && root_reference(trailer->0) is Some {
        RootFound { result: resolve(objects, root_reference(trailer->0)->0), xref_table }
    } else {
        match startxref {
            None => RootFound {
                result: Err(PdfError::XRefFormat { cause: XRefFault::NoRoot }),
                xref_table,
            },
            Some(offset) => match object_at(objects, offset) {
                None => RootFound {
                    result: Err(PdfError::XRefFormat { cause: XRefFault::NoRoot }),
                    xref_table,
                },
                Some(object) => match object.value {
                    ValueView::Stream(dictionary, bytes) => root_from_stream(
                        objects,
                        xref_table,
                        dictionary,
                        stream_data(StreamView { dictionary, bytes }),
                    ),
                    other => RootFound {
                        result: Err(
                            PdfError::TypeMismatch {
                                place: Place::XRefStream,
                                expected: ValueKind::Stream,
                                got: kind_of(other),
                            },
                        ),
                        xref_table,
                    },
                },
            },
        }
    }
}

pub fn read_widths(dictionary: &PDFDictionary) -> (r: Result<Vec<u64>, PdfError>)
    ensures
        match r {
            Ok(widths) => stream_widths(dictionary@) == Ok::<Seq<u64>, PdfError>(widths@),
            Err(e) => stream_widths(dictionary@) == Err::<Seq<u64>, PdfError>(e),
        },
{
    let values: &Vec<PDFValue> = match lookup(dictionary, Key::W) {
        None => {
            return Err(PdfError::MissingDictEntry { key: Place::W });
        },
        Some(value) => match value {
            PDFValue::Array(values) => values,
            other => {
                return Err(
                    PdfError::TypeMismatch {
                        place: Place::W,
                        expected: ValueKind::Array,
                        got: other.kind(),
                    },
                );
            },
        },
    };
    let ghost items = values_view(values@);
    proof {
        lemma_values_view(values@);
    }
    let mut widths: Vec<u64> = Vec::new();
    let mut i: usize = 0;
    while i < values.len()
        invariant
            i <= values@.len(),
            items == values_view(values@),
            items.len() == values@.len(),
            dictionary@.dom().contains(key_w()),
            dictionary@[key_w()] == ValueView::Array(items),
            forall|k: int| 0 <= k < values@.len() ==> #[trigger] items[k] == values@[k]@,
            widths_from(items, i as int, widths@) == widths_from(items, 0, Seq::empty()),
        decreases values@.len() - i,
    {
        match &values[i] {
            PDFValue::Number(n) => {
                widths.push(n.to_u64());
            },
            other => {
                return Err(
                    PdfError::TypeMismatch {
                        place: Place::W,
                        expected: ValueKind::Number,
                        got: other.kind(),
                    },
                );
            },
        }
        i = i + 1;
    }
    Ok(widths)
}

pub fn check_size(dictionary: &PDFDictionary) -> (r: Result<(), PdfError>)
    ensures
        r == size_check(dictionary@),
{
    match lookup(dictionary, Key::Size) {
        None => Err(PdfError::MissingDictEntry { key: Place::Size }),
        Some(value) => match value {
            PDFValue::Number(_) => Ok(()),
            other => Err(
                PdfError::TypeMismatch {
                    place: Place::Size,
                    expected: ValueKind::Number,
                    got: other.kind(),
                },
            ),
        },
    }
}

pub fn read_reference_under(dictionary: &PDFDictionary, key: Key, place: Place) -> (r: Result<
    PDFObjectHeader,
    PdfError,
>)
    ensures
        r == reference_under(dictionary@, key, place),
{
    match lookup(dictionary, key) {
        None => Err(PdfError::MissingDictEntry { key: place }),
        Some(value) => match value {
            PDFValue::ObjectReference(id) => Ok(*id),
            other => Err(
                PdfError::TypeMismatch {
                    place,
                    expected: ValueKind::ObjectReference,
                    got: other.kind(),
                },
            ),
        },
    }
}

/// The dictionary of the root of the page tree: the object that the catalog
/// refers to under `Pages`.
pub open spec fn pages_dictionary(objects: Map<PDFObjectHeader, ObjectView>, root: ObjectView) -> Result<
    Map<Seq<u8>, ValueView>,
    PdfError,
> {
    match root.value {
        ValueView::Dictionary(catalog) => match reference_under(catalog, Key::Pages, Place::Pages) {
            Err(e) => Err(e),
            Ok(id) => match resolve(objects, id) {
                Err(e) => Err(e),
                Ok(node) => match node.value {
                    ValueView::Dictionary(dictionary) => Ok(dictionary),
                    other => Err(
                        PdfError::TypeMismatch {
                            place: Place::PageTreeNode,
                            expected: ValueKind::Dictionary,
                            got: kind_of(other),
                        },
                    ),
                },
            },
        },
        other => Err(
            PdfError::TypeMismatch {
                place: Place::Root,
                expected: ValueKind::Dictionary,
                got: kind_of(other),
            },
        ),
    }
}

pub fn read_pages_dictionary(objects: &ObjectTable, root: &PDFObject) -> (r: Result<
    PDFDictionary,
    PdfError,
>)
    ensures
        match r {
            Ok(dictionary) => pages_dictionary(objects@, root@) == Ok::<
                Map<Seq<u8>, ValueView>,
                PdfError,
            >(dictionary@),
            Err(e) => pages_dictionary(objects@, root@) == Err::<Map<Seq<u8>, ValueView>, PdfError>(
                e,
            ),
        },
{
    let catalog: &PDFDictionary = match &root.value {
        PDFValue::Dictionary(catalog) => catalog,
        other => {
            return Err(
                PdfError::TypeMismatch {
                    place: Place::Root,
                    expected: ValueKind::Dictionary,
                    got: other.kind(),
                },
            );
        },
    };
    let id: PDFObjectHeader = match read_reference_under(catalog, Key::Pages, Place::Pages) {
        Ok(id) => id,
        Err(e) => {
            return Err(e);
        },
    };
    match objects.get(&id) {
        None => Err(PdfError::UnresolvedReference { id }),
        Some(node) => match &node.value {
            PDFValue::Dictionary(dictionary) => Ok(clone_dictionary(dictionary)),
            other => Err(
                PdfError::TypeMismatch {
                    place: Place::PageTreeNode,
                    expected: ValueKind::Dictionary,
                    got: other.kind(),
                },
            ),
        },
    }
}

/// The references of `values` from `from` on, behind the references `done`:
/// each value must be a reference.
pub open spec fn references_from(
    values: Seq<ValueView>,
    from: int,
    done: Seq<PDFObjectHeader>,
    place: Place,
) -> Result<Seq<PDFObjectHeader>, PdfError>
    decreases values.len() - from,
{
    if from < 0 || from >= values.len() {
        Ok(done)
    } else {
        match values[from] {
            ValueView::ObjectReference(id) => references_from(values, from + 1, done.push(id), place),
            other => Err(
                PdfError::TypeMismatch {
                    place,
                    expected: ValueKind::ObjectReference,
                    got: kind_of(other),
                },
            ),
        }
    }
}

/// The children of a node of the page tree: the references of the array
/// under `Kids`.
pub open spec fn kid_ids(dictionary: Map<Seq<u8>, ValueView>) -> Result<
    Seq<PDFObjectHeader>,
    PdfError,
> {
    if !dictionary.dom().contains(key_kids()) {
        Err(PdfError::MissingDictEntry { key: Place::Kids })
    } else {
        match dictionary[key_kids()] {
            ValueView::Array(values) => references_from(values, 0, Seq::empty(), Place::Kids),
            other => Err(
                PdfError::TypeMismatch {
                    place: Place::Kids,
                    expected: ValueKind::Array,
                    got: kind_of(other),
                },
            ),
        }
    }
}

/// Whether a node of the page tree is a page: its `Type` is `/Page`.
pub open spec fn is_page(dictionary: Map<Seq<u8>, ValueView>) -> bool {
    dictionary.dom().contains(key_type()) && dictionary[key_type()] == ValueView::Name(name_page())
}

/// The bytes that the content streams `parts` make together from `from` on,
/// behind the bytes `done`: the decoded bytes of each stream, with a line
/// feed behind each.
pub open spec fn merged_from(
    objects: Map<PDFObjectHeader, ObjectView>,
    parts: Seq<ValueView>,
    from: int,
    done: Seq<u8>,
) -> Result<Seq<u8>, PdfError>
    decreases parts.len() - from,
{
    if from < 0 || from >= parts.len() {
        Ok(done)
    } else {
        match parts[from] {
            ValueView::ObjectReference(id) => match resolve(objects, id) {
                Err(e) => Err(e),
                Ok(object) => match object.value {
                    ValueView::Stream(dictionary, bytes) => match stream_data(
                        StreamView { dictionary, bytes },
                    ) {
                        Ok(data) => merged_from(objects, parts, from + 1, done + data + seq![LF]),
                        Err(e) => Err(e),
                    },
                    other => Err(
                        PdfError::TypeMismatch {
                            place: Place::Contents,
                            expected: ValueKind::Stream,
                            got: kind_of(other),
                        },
                    ),
                },
            },
            other => Err(
                PdfError::TypeMismatch {
                    place: Place::Contents,
                    expected: ValueKind::ObjectReference,
                    got: kind_of(other),
                },
            ),
        }
    }
}

/// The dictionary of a content stream that the engine made of several: it
/// states the length and names no filter.
pub open spec fn merged_dictionary(length: nat) -> Map<Seq<u8>, ValueView> {
    Map::<Seq<u8>, ValueView>::empty().insert(
        crate::reader::key_length(),
        ValueView::Number(Decimal { negative: false, mantissa: length as u64, scale: 0 }),
    )
}

/// The page that the leaf `node` with the dictionary `dictionary` is. Its
/// content stream is the object that it refers to under `Contents`; where
/// it holds an array of references there, the content stream is the one that
/// the streams of the array make together, under the label of the page.
pub open spec fn page_of(
    objects: Map<PDFObjectHeader, ObjectView>,
    node: ObjectView,
    dictionary: Map<Seq<u8>, ValueView>,
) -> Result<PageView, PdfError> {
    if !dictionary.dom().contains(key_contents()) {
        Err(PdfError::MissingDictEntry { key: Place::Contents })
    } else {
        match dictionary[key_contents()] {
            ValueView::ObjectReference(id) => match resolve(objects, id) {
                Ok(contents) => Ok(PageView { object: node, contents }),
                Err(e) => Err(e),
            },
            ValueView::Array(parts) => match merged_from(objects, parts, 0, Seq::empty()) {
                Ok(bytes) => Ok(
                    PageView {
                        object: node,
                        contents: ObjectView {
                            header: node.header,
                            value: ValueView::Stream(merged_dictionary(bytes.len()), bytes),
                            offset: node.offset,
                        },
                    },
                ),
                Err(e) => Err(e),
            },
            other => Err(
                PdfError::TypeMismatch {
                    place: Place::Contents,
                    expected: ValueKind::ObjectReference,
                    got: kind_of(other),
                },
            ),
        }
    }
}

/// The walk behind a node: the nodes that are still to be visited, the next
/// one last, and the pages that were found.
pub struct Visited {
    pub stack: Seq<PDFObjectHeader>,
    pub pages: Seq<PageView>,
}

/// The visit of the node `id`, with `rest` still to be visited and `pages`
/// found before. A node with `Kids` puts its children on the stack, the
/// first child last; a node without is a page where its `Type` says so, and
/// is no node of a page tree where not.
pub open spec fn visit(
    objects: Map<PDFObjectHeader, ObjectView>,
    id: PDFObjectHeader,
    rest: Seq<PDFObjectHeader>,
    pages: Seq<PageView>,
) -> Result<Visited, PdfError> {
    match resolve(objects, id) {
        Err(e) => Err(e),
        Ok(node) => match node.value {
            ValueView::Dictionary(dictionary) => if dictionary.dom().contains(key_kids()) {
                match kid_ids(dictionary) {
                    Ok(kids) => Ok(Visited { stack: rest + kids.reverse(), pages }),
                    Err(e) => Err(e),
                }
            } else if is_page(dictionary) {
                match page_of(objects, node, dictionary) {
                    Ok(page) => Ok(Visited { stack: rest, pages: pages.push(page) }),
                    Err(e) => Err(e),
                }
            } else {
                Err(
                    PdfError::TypeMismatch {
                        place: Place::Type,
                        expected: ValueKind::Name,
                        got: if dictionary.dom().contains(key_type()) {
                            kind_of(dictionary[key_type()])
                        } else {
                            ValueKind::Null
                        },
                    },
                )
            },
            other => Err(
                PdfError::TypeMismatch {
                    place: Place::PageTreeNode,
                    expected: ValueKind::Dictionary,
                    got: kind_of(other),
                },
            ),
        },
    }
}

/// What a walk found: the pages, in the order of the tree, and the nodes
/// that it visited, in the order of the visits.
pub struct Walked {
    pub pages: Seq<PageView>,
    pub visited: Seq<PDFObjectHeader>,
}

/// What a walk finds: the pages found before, and those of the nodes on the
/// stack and below them, in the order of the tree. No node may be reached
/// twice. No more nodes are visited than `limit`, the number of objects that
/// the document defines: the walk ends.
pub open spec fn walk(
    objects: Map<PDFObjectHeader, ObjectView>,
    limit: nat,
    stack: Seq<PDFObjectHeader>,
    visited: Seq<PDFObjectHeader>,
    pages: Seq<PageView>,
) -> Result<Walked, PdfError>
    decreases limit - visited.len(),
{
    if stack.len() == 0 {
        Ok(Walked { pages, visited })
    } else if visited.contains(stack.last()) {
        Err(PdfError::StateViolation { cause: Violation::PageTreeCycle })
    } else {
        match visit(objects, stack.last(), stack.drop_last(), pages) {
            Ok(next) => if visited.len() >= limit {
                Err(PdfError::StateViolation { cause: Violation::PageTreeCycle })
            } else {
                walk(objects, limit, next.stack, visited.push(stack.last()), next.pages)
            },
            Err(e) => Err(e),
        }
    }
}

/// The walk over the tree whose root has the dictionary `dictionary`. It
/// visits no more nodes than the document defines objects.
pub open spec fn tree_walk(
    objects: Map<PDFObjectHeader, ObjectView>,
    dictionary: Map<Seq<u8>, ValueView>,
) -> Result<Walked, PdfError> {
    match kid_ids(dictionary) {
        Ok(kids) => walk(objects, objects.dom().len(), kids.reverse(), Seq::empty(), Seq::empty()),
        Err(e) => Err(e),
    }
}

/// The pages of the tree whose root has the dictionary `dictionary`.
pub open spec fn page_list(
    objects: Map<PDFObjectHeader, ObjectView>,
    dictionary: Map<Seq<u8>, ValueView>,
) -> Result<Seq<PageView>, PdfError> {
    match tree_walk(objects, dictionary) {
        Ok(walked) => Ok(walked.pages),
        Err(e) => Err(e),
    }
}

pub fn read_references(values: &Vec<PDFValue>, place: Place) -> (r: Result<
    Vec<PDFObjectHeader>,
    PdfError,
>)
    ensures
        match r {
            Ok(ids) => references_from(values_view(values@), 0, Seq::empty(), place) == Ok::<
                Seq<PDFObjectHeader>,
                PdfError,
            >(ids@),
            Err(e) => references_from(values_view(values@), 0, Seq::empty(), place) == Err::<
                Seq<PDFObjectHeader>,
                PdfError,
            >(e),
        },
{
    let ghost items = values_view(values@);
    proof {
        lemma_values_view(values@);
    }
    let mut ids: Vec<PDFObjectHeader> = Vec::new();
    let mut i: usize = 0;
    while i < values.len()
        invariant
            i <= values@.len(),
            items == values_view(values@),
            items.len() == values@.len(),
            forall|k: int| 0 <= k < values@.len() ==> #[trigger] items[k] == values@[k]@,
            references_from(items, i as int, ids@, place) == references_from(
                items,
                0,
                Seq::empty(),
                place,
            ),
        decreases values@.len() - i,
    {
        match &values[i] {
            PDFValue::ObjectReference(id) => {
                ids.push(*id);
            },
            other => {
                return Err(
                    PdfError::TypeMismatch {
                        place,
                        expected: ValueKind::ObjectReference,
                        got: other.kind(),
                    },
                );
            },
        }
        i = i + 1;
    }
    Ok(ids)
}

pub fn read_kid_ids(dictionary: &PDFDictionary) -> (r: Result<Vec<PDFObjectHeader>, PdfError>)
    ensures
        match r {
            Ok(ids) => kid_ids(dictionary@) == Ok::<Seq<PDFObjectHeader>, PdfError>(ids@),
            Err(e) => kid_ids(dictionary@) == Err::<Seq<PDFObjectHeader>, PdfError>(e),
        },
{
    match lookup(dictionary, Key::Kids) {
        None => Err(PdfError::MissingDictEntry { key: Place::Kids }),
        Some(value) => match value {
            PDFValue::Array(values) => read_references(values, Place::Kids),
            other => Err(
                PdfError::TypeMismatch {
                    place: Place::Kids,
                    expected: ValueKind::Array,
                    got: other.kind(),
                },
            ),
        },
    }
}

pub fn check_is_page(dictionary: &PDFDictionary) -> (r: bool)
    ensures
        r == is_page(dictionary@),
{
    match lookup(dictionary, Key::Type) {
        Some(PDFValue::Name(name)) => {
            let page: [u8; 4] = ['P' as u8, 'a' as u8, 'g' as u8, 'e' as u8];
            assert(page@ =~= name_page());
            bytes_eq(name.as_slice(), &page)
        },
        _ => false,
    }
}

/// Writes the bytes of `data` behind `out`.
pub fn append_bytes(out: &mut Vec<u8>, data: &[u8])
    ensures
        final(out)@ == old(out)@ + data@,
{
    let mut i: usize = 0;
    let ghost before = out@;
    assert(data@.take(0) =~= Seq::<u8>::empty());
    assert(before + Seq::<u8>::empty() =~= before);
    while i < data.len()
        invariant
            i <= data@.len(),
            out@ == before + data@.take(i as int),
        decreases data@.len() - i,
    {
        out.push(data[i]);
        assert(data@.take(i + 1) =~= data@.take(i as int).push(data@[i as int]));
        assert(before + data@.take(i + 1) =~= (before + data@.take(i as int)).push(
            data@[i as int],
        ));
        i = i + 1;
    }
    assert(data@.take(i as int) =~= data@);
}

/// The bytes that a list of content streams makes together.
pub fn merge_contents(objects: &ObjectTable, parts: &Vec<PDFValue>) -> (r: Result<
    Vec<u8>,
    PdfError,
>)
    ensures
        bytes_outcome(r) == merged_from(objects@, values_view(parts@), 0, Seq::empty()),
{
    let ghost items = values_view(parts@);
    proof {
        lemma_values_view(parts@);
    }
    let mut out: Vec<u8> = Vec::new();
    let mut i: usize = 0;
    while i < parts.len()
        invariant
            i <= parts@.len(),
            items == values_view(parts@),
            items.len() == parts@.len(),
            forall|k: int| 0 <= k < parts@.len() ==> #[trigger] items[k] == parts@[k]@,
            merged_from(objects@, items, i as int, out@) == merged_from(
                objects@,
                items,
                0,
                Seq::empty(),
            ),
        decreases parts@.len() - i,
    {
        let id: PDFObjectHeader = match &parts[i] {
            PDFValue::ObjectReference(id) => *id,
            other => {
                return Err(
                    PdfError::TypeMismatch {
                        place: Place::Contents,
                        expected: ValueKind::ObjectReference,
                        got: other.kind(),
                    },
                );
            },
        };
        let object: &PDFObject = match objects.get(&id) {
            Some(object) => object,
            None => {
                return Err(PdfError::UnresolvedReference { id });
            },
        };
        let stream: &PDFStream = match &object.value {
            PDFValue::Stream(stream) => stream,
            other => {
                return Err(
                    PdfError::TypeMismatch {
                        place: Place::Contents,
                        expected: ValueKind::Stream,
                        got: other.kind(),
                    },
                );
            },
        };
        match stream.decompress() {
            Ok(data) => {
                let ghost before = out@;
                append_bytes(&mut out, data.as_slice());
                out.push(LF);
                assert(out@ =~= before + data@ + seq![LF]);
            },
            Err(e) => {
                return Err(e);
            },
        }
        i = i + 1;
    }
    Ok(out)
}

pub open spec fn page_outcome(r: Result<PDFPage, PdfError>) -> Result<PageView, PdfError> {
    match r {
        Ok(page) => Ok(page@),
        Err(e) => Err(e),
    }
}

/// The page that the leaf `node` with the dictionary `dictionary` is.
pub fn build_page(objects: &ObjectTable, node: &PDFObject, dictionary: &PDFDictionary) -> (r: Result<
    PDFPage,
    PdfError,
>)
    ensures
        page_outcome(r) == page_of(objects@, node@, dictionary@),
{
    match lookup(dictionary, Key::Contents) {
        None => Err(PdfError::MissingDictEntry { key: Place::Contents }),
        Some(value) => match value {
            PDFValue::ObjectReference(id) => match objects.get(id) {
                Some(contents) => Ok(
                    PDFPage { object: node.duplicate(), contents: contents.duplicate() },
                ),
                None => Err(PdfError::UnresolvedReference { id: *id }),
            },
            PDFValue::Array(parts) => match merge_contents(objects, parts) {
                Ok(bytes) => {
                    let mut described: PDFDictionary = PDFDictionary::new();
                    let mut key: Vec<u8> = Vec::new();
                    key.push('L' as u8);
                    key.push('e' as u8);
                    key.push('n' as u8);
                    key.push('g' as u8);
                    key.push('t' as u8);
                    key.push('h' as u8);
                    assert(key@ =~= crate::reader::key_length());
                    described.insert(
                        key,
                        PDFValue::Number(
                            Decimal { negative: false, mantissa: bytes.len() as u64, scale: 0 },
                        ),
                    );
                    Ok(
                        PDFPage {
                            object: node.duplicate(),
                            contents: PDFObject {
                                header: node.header,
                                value: PDFValue::Stream(PDFStream { dictionary: described, bytes }),
                                offset: node.offset,
                            },
                        },
                    )
                },
                Err(e) => Err(e),
            },
            other => Err(
                PdfError::TypeMismatch {
                    place: Place::Contents,
                    expected: ValueKind::ObjectReference,
                    got: other.kind(),
                },
            ),
        },
    }
}

/// Visits the node `id`: puts its children on the stack, or its page behind
/// the pages.
pub fn visit_node(
    objects: &ObjectTable,
    id: &PDFObjectHeader,
    stack: &mut Vec<PDFObjectHeader>,
    pages: &mut Vec<PDFPage>,
) -> (r: Result<(), PdfError>)
    ensures
        match r {
            Ok(_) => visit(objects@, *id, old(stack)@, pages_view(old(pages)@)) == Ok::<
                Visited,
                PdfError,
            >(Visited { stack: final(stack)@, pages: pages_view(final(pages)@) }),
            Err(e) => visit(objects@, *id, old(stack)@, pages_view(old(pages)@)) == Err::<
                Visited,
                PdfError,
            >(e),
        },
{
    let node: &PDFObject = match objects.get(id) {
        Some(node) => node,
        None => {
            return Err(PdfError::UnresolvedReference { id: *id });
        },
    };
    let dictionary: &PDFDictionary = match &node.value {
        PDFValue::Dictionary(dictionary) => dictionary,
        other => {
            return Err(
                PdfError::TypeMismatch {
                    place: Place::PageTreeNode,
                    expected: ValueKind::Dictionary,
                    got: other.kind(),
                },
            );
        },
    };
    if lookup(dictionary, Key::Kids).is_some() {
        match read_kid_ids(dictionary) {
            Ok(kids) => {
                push_reversed(stack, &kids);
                Ok(())
            },
            Err(e) => Err(e),
        }
    } else if check_is_page(dictionary) {
        match build_page(objects, node, dictionary) {
            Ok(page) => {
                let ghost before = pages_view(pages@);
                pages.push(page);
                assert(pages_view(pages@) =~= before.push(page@));
                Ok(())
            },
            Err(e) => Err(e),
        }
    } else {
        let got: ValueKind = match lookup(dictionary, Key::Type) {
            Some(value) => value.kind(),
            None => ValueKind::Null,
        };
        Err(PdfError::TypeMismatch { place: Place::Type, expected: ValueKind::Name, got })
    }
}

/// Puts `ids` on the stack, the first of them last.
pub fn push_reversed(stack: &mut Vec<PDFObjectHeader>, ids: &Vec<PDFObjectHeader>)
    ensures
        final(stack)@ == old(stack)@ + ids@.reverse(),
{
    let ghost before = stack@;
    let mut j: usize = ids.len();
    assert(before + ids@.subrange(j as int, ids@.len() as int).reverse() =~= before);
    while j > 0
        invariant
            j <= ids@.len(),
            stack@ == before + ids@.subrange(j as int, ids@.len() as int).reverse(),
        decreases j,
    {
        j = j - 1;
        stack.push(ids[j]);
        assert(ids@.subrange(j as int, ids@.len() as int).reverse() =~= ids@.subrange(
            j + 1,
            ids@.len() as int,
        ).reverse().push(ids@[j as int]));
    }
    assert(ids@.subrange(0, ids@.len() as int) =~= ids@);
}

pub fn contains_id(ids: &Vec<PDFObjectHeader>, id: &PDFObjectHeader) -> (r: bool)
    ensures
        r == ids@.contains(*id),
{
    let mut i: usize = 0;
    while i < ids.len()
        invariant
            i <= ids@.len(),
            forall|k: int| 0 <= k < i ==> ids@[k] != *id,
        decreases ids@.len() - i,
    {
        if ids[i].object_number == id.object_number && ids[i].generation_number
            == id.generation_number {
            return true;
        }
        i = i + 1;
    }
    false
}

pub open spec fn pages_outcome(r: Result<Vec<PDFPage>, PdfError>) -> Result<
    Seq<PageView>,
    PdfError,
> {
    match r {
        Ok(pages) => Ok(pages_view(pages@)),
        Err(e) => Err(e),
    }
}

/// The pages of the tree whose root has the dictionary `dictionary`.
pub fn read_page_list(objects: &ObjectTable, dictionary: &PDFDictionary) -> (r: Result<
    Vec<PDFPage>,
    PdfError,
>)
    ensures
        pages_outcome(r) == page_list(objects@, dictionary@),
{
    let kids: Vec<PDFObjectHeader> = match read_kid_ids(dictionary) {
        Ok(kids) => kids,
        Err(e) => {
            return Err(e);
        },
    };
    let limit: usize = objects.count();
    let mut stack: Vec<PDFObjectHeader> = Vec::new();
    push_reversed(&mut stack, &kids);
    let mut visited: Vec<PDFObjectHeader> = Vec::new();
    let mut pages: Vec<PDFPage> = Vec::new();
    let ghost whole = tree_walk(objects@, dictionary@);
    proof {
        assert(stack@ =~= kids@.reverse());
        assert(pages_view(pages@) =~= Seq::<PageView>::empty());
    }
    while stack.len() > 0
        invariant
            limit == objects@.dom().len(),
            whole == tree_walk(objects@, dictionary@),
            walk(objects@, limit as nat, stack@, visited@, pages_view(pages@)) == whole,
        decreases limit - visited@.len(),
    {
        let id: PDFObjectHeader = match stack.pop() {
            Some(id) => id,
            None => {
                return Ok(pages);
            },
        };
        if contains_id(&visited, &id) {
            return Err(PdfError::StateViolation { cause: Violation::PageTreeCycle });
        }
        match visit_node(objects, &id, &mut stack, &mut pages) {
            Ok(_) => {
                if visited.len() >= limit {
                    return Err(PdfError::StateViolation { cause: Violation::PageTreeCycle });
                }
                visited.push(id);
            },
            Err(e) => {
                return Err(e);
            },
        }
    }
    Ok(pages)
}

/// The children of a node of the page tree; a node that holds none, or is
/// none, has none.
pub open spec fn node_kids(objects: Map<PDFObjectHeader, ObjectView>, id: PDFObjectHeader) -> Seq<
    PDFObjectHeader,
> {
    match resolve(objects, id) {
        Ok(node) => match node.value {
            ValueView::Dictionary(dictionary) => if dictionary.dom().contains(key_kids()) {
                match kid_ids(dictionary) {
                    Ok(kids) => kids,
                    Err(_) => Seq::empty(),
                }
            } else {
                Seq::empty()
            },
            _ => Seq::empty(),
        },
        Err(_) => Seq::empty(),
    }
}

/// Whether `id` is a leaf of the page tree that is a page.
pub open spec fn is_leaf_page(objects: Map<PDFObjectHeader, ObjectView>, id: PDFObjectHeader) -> bool {
    match resolve(objects, id) {
        Ok(node) => match node.value {
            ValueView::Dictionary(dictionary) => !dictionary.dom().contains(key_kids()) && is_page(
                dictionary,
            ),
            _ => false,
        },
        Err(_) => false,
    }
}

/// Whether `path` leads from one of `roots` to `id`, each node a child of
/// the one before it.
pub open spec fn connects(
    objects: Map<PDFObjectHeader, ObjectView>,
    roots: Seq<PDFObjectHeader>,
    path: Seq<PDFObjectHeader>,
    id: PDFObjectHeader,
) -> bool {
    &&& path.len() > 0
    &&& roots.contains(path[0])
    &&& path.last() == id
    &&& forall|i: int|
        0 <= i < path.len() - 1 ==> node_kids(objects, #[trigger] path[i]).contains(path[i + 1])
}

/// Whether `id` can be reached from one of `roots`.
pub open spec fn reachable(
    objects: Map<PDFObjectHeader, ObjectView>,
    roots: Seq<PDFObjectHeader>,
    id: PDFObjectHeader,
) -> bool {
    exists|path: Seq<PDFObjectHeader>| connects(objects, roots, path, id)
}

/// How many of `ids` are leaves that are pages.
pub open spec fn leaves_in(objects: Map<PDFObjectHeader, ObjectView>, ids: Seq<PDFObjectHeader>) -> nat
    decreases ids.len(),
{
    if ids.len() == 0 {
        0
    } else if is_leaf_page(objects, ids[0]) {
        1 + leaves_in(objects, ids.skip(1))
    } else {
        leaves_in(objects, ids.skip(1))
    }
}

/// The reachable leaves that are pages.
pub open spec fn reachable_leaves(
    objects: Map<PDFObjectHeader, ObjectView>,
    roots: Seq<PDFObjectHeader>,
) -> Set<PDFObjectHeader> {
    Set::new(|id: PDFObjectHeader| reachable(objects, roots, id) && is_leaf_page(objects, id))
}

proof fn lemma_walk(
    objects: Map<PDFObjectHeader, ObjectView>,
    limit: nat,
    stack: Seq<PDFObjectHeader>,
    visited: Seq<PDFObjectHeader>,
    pages: Seq<PageView>,
)
    requires
        walk(objects, limit, stack, visited, pages) is Ok,
        visited.no_duplicates(),
    ensures
        ({
            let w = walk(objects, limit, stack, visited, pages)->Ok_0;
            &&& w.visited.no_duplicates()
            &&& visited.len() <= w.visited.len()
            &&& w.visited.take(visited.len() as int) == visited
            &&& forall|id: PDFObjectHeader| stack.contains(id) ==> w.visited.contains(id)
            &&& forall|i: int, kid: PDFObjectHeader|
                visited.len() <= i < w.visited.len() && node_kids(
                    objects,
                    #[trigger] w.visited[i],
                ).contains(kid) ==> #[trigger] w.visited.contains(kid)
            &&& forall|i: int|
                visited.len() <= i < w.visited.len() ==> reachable(
                    objects,
                    stack,
                    #[trigger] w.visited[i],
                )
            &&& w.pages.len() == pages.len() + leaves_in(
                objects,
                w.visited.skip(visited.len() as int),
            )
        }),
    decreases limit - visited.len(),
{
    let w = walk(objects, limit, stack, visited, pages)->Ok_0;
    if stack.len() == 0 {
        assert(w.visited.take(visited.len() as int) =~= visited);
        assert(w.visited.skip(visited.len() as int) =~= Seq::<PDFObjectHeader>::empty());
    } else {
        let id = stack.last();
        let rest = stack.drop_last();
        let next = visit(objects, id, rest, pages)->Ok_0;
        let seen = visited.push(id);
        assert(seen.no_duplicates()) by {
            assert forall|i: int, j: int| 0 <= i < seen.len() && 0 <= j < seen.len() && i
                != j implies seen[i] != seen[j] by {
                if i == visited.len() {
                    assert(visited[j] == seen[j]);
                } else if j == visited.len() {
                    assert(visited[i] == seen[i]);
                }
            }
        }
        lemma_walk(objects, limit, next.stack, seen, next.pages);
        let n = visited.len() as int;
        assert(w.visited[n] == id) by {
            assert(w.visited.take(n + 1)[n] == seen[n]);
        }
        assert(w.visited.take(n) =~= visited) by {
            assert forall|i: int| 0 <= i < n implies w.visited[i] == visited[i] by {
                assert(w.visited.take(n + 1)[i] == seen[i]);
            }
        }
        let kids = node_kids(objects, id);
        // What the visit left on the stack: the rest, and the children.
        assert forall|x: PDFObjectHeader| rest.contains(x) || kids.contains(x) implies next.stack.contains(
            x,
        ) by {
            if rest.contains(x) {
                let i = choose|i: int| 0 <= i < rest.len() && rest[i] == x;
                assert(next.stack[i] == x);
            } else {
                let i = choose|i: int| 0 <= i < kids.len() && kids[i] == x;
                assert(next.stack == rest + kids.reverse());
                assert(next.stack[rest.len() + (kids.len() - 1 - i)] == x);
            }
        }
        assert forall|x: PDFObjectHeader| stack.contains(x) implies w.visited.contains(x) by {
            let i = choose|i: int| 0 <= i < stack.len() && stack[i] == x;
            if i == stack.len() - 1 {
                assert(w.visited[n] == x);
            } else {
                assert(rest[i] == x);
                assert(rest.contains(x));
            }
        }
        assert forall|i: int, kid: PDFObjectHeader|
            n <= i < w.visited.len() && node_kids(objects, #[trigger] w.visited[i]).contains(
                kid,
            ) implies #[trigger] w.visited.contains(kid) by {
            if i == n {
                assert(kids.contains(kid));
                assert(next.stack.contains(kid));
            }
        }
        assert forall|i: int| n <= i < w.visited.len() implies reachable(
            objects,
            stack,
            #[trigger] w.visited[i],
        ) by {
            if i == n {
                let path = seq![id];
                assert(stack[stack.len() - 1] == id);
                assert(connects(objects, stack, path, id));
            } else {
                let x = w.visited[i];
                assert(reachable(objects, next.stack, x));
                let path = choose|path: Seq<PDFObjectHeader>| connects(objects, next.stack, path, x);
                let first = path[0];
                let at = choose|k: int| 0 <= k < next.stack.len() && next.stack[k] == first;
                if at < rest.len() {
                    assert(next.stack[at] == rest[at]);
                    assert(stack[at] == first);
                    assert(connects(objects, stack, path, x));
                } else {
                    assert(next.stack == rest + kids.reverse());
                    assert(kids[kids.len() - 1 - (at - rest.len())] == first);
                    assert(kids.contains(first));
                    let longer = seq![id] + path;
                    assert(stack[stack.len() - 1] == id);
                    assert forall|k: int| 0 <= k < longer.len() - 1 implies node_kids(
                        objects,
                        #[trigger] longer[k],
                    ).contains(longer[k + 1]) by {
                        if k > 0 {
                            assert(longer[k] == path[k - 1]);
                            assert(longer[k + 1] == path[k]);
                        }
                    }
                    assert(longer.last() == path.last());
                    assert(connects(objects, stack, longer, x));
                }
            }
        }
        assert(w.visited.skip(n).skip(1) =~= w.visited.skip(n + 1));
        assert(w.visited.skip(n)[0] == id);
    }
}

proof fn lemma_path_visited(
    objects: Map<PDFObjectHeader, ObjectView>,
    roots: Seq<PDFObjectHeader>,
    visited: Seq<PDFObjectHeader>,
    path: Seq<PDFObjectHeader>,
    upto: int,
)
    requires
        0 <= upto < path.len(),
        connects(objects, roots, path, path.last()),
        forall|id: PDFObjectHeader| roots.contains(id) ==> visited.contains(id),
        forall|i: int, kid: PDFObjectHeader|
            0 <= i < visited.len() && node_kids(objects, #[trigger] visited[i]).contains(kid)
                ==> #[trigger] visited.contains(kid),
    ensures
        visited.contains(path[upto]),
    decreases upto,
{
    if upto > 0 {
        lemma_path_visited(objects, roots, visited, path, upto - 1);
        let i = choose|i: int| 0 <= i < visited.len() && visited[i] == path[upto - 1];
        assert(node_kids(objects, visited[i]).contains(path[upto]));
    }
}

proof fn lemma_leaves_counted(
    objects: Map<PDFObjectHeader, ObjectView>,
    ids: Seq<PDFObjectHeader>,
)
    requires
        ids.no_duplicates(),
    ensures
        Set::new(|id: PDFObjectHeader| ids.contains(id) && is_leaf_page(objects, id)).finite(),
        Set::new(|id: PDFObjectHeader| ids.contains(id) && is_leaf_page(objects, id)).len()
            == leaves_in(objects, ids),
    decreases ids.len(),
{
    let leaves = Set::new(|id: PDFObjectHeader| ids.contains(id) && is_leaf_page(objects, id));
    if ids.len() == 0 {
        assert(leaves =~= Set::<PDFObjectHeader>::empty());
    } else {
        let first = ids[0];
        let rest = ids.skip(1);
        assert(rest.no_duplicates()) by {
            assert forall|i: int, j: int| 0 <= i < rest.len() && 0 <= j < rest.len() && i
                != j implies rest[i] != rest[j] by {
                assert(rest[i] == ids[i + 1]);
                assert(rest[j] == ids[j + 1]);
            }
        }
        lemma_leaves_counted(objects, rest);
        let fewer = Set::new(
            |id: PDFObjectHeader| rest.contains(id) && is_leaf_page(objects, id),
        );
        assert(!rest.contains(first)) by {
            if rest.contains(first) {
                let i = choose|i: int| 0 <= i < rest.len() && rest[i] == first;
                assert(ids[i + 1] == first);
            }
        }
        assert forall|id: PDFObjectHeader| ids.contains(id) <==> (id == first || rest.contains(
            id,
        )) by {
            if ids.contains(id) {
                let i = choose|i: int| 0 <= i < ids.len() && ids[i] == id;
                if i > 0 {
                    assert(rest[i - 1] == id);
                }
            }
            if rest.contains(id) {
                let i = choose|i: int| 0 <= i < rest.len() && rest[i] == id;
                assert(ids[i + 1] == id);
            }
            if id == first {
                assert(ids[0] == id);
            }
        }
        if is_leaf_page(objects, first) {
            assert(leaves =~= fewer.insert(first));
        } else {
            assert(leaves =~= fewer);
        }
    }
}

/// The walk over a page tree is complete: where it succeeds, it visits each
/// node that can be reached from the roots, and no other, once; and it
/// finds as many pages as leaves that are pages can be reached.
pub proof fn lemma_pages_complete(
    objects: Map<PDFObjectHeader, ObjectView>,
    limit: nat,
    roots: Seq<PDFObjectHeader>,
)
    requires
        walk(objects, limit, roots, Seq::empty(), Seq::empty()) is Ok,
    ensures
        ({
            let w = walk(objects, limit, roots, Seq::empty(), Seq::empty())->Ok_0;
            &&& w.visited.no_duplicates()
            &&& forall|id: PDFObjectHeader|
                w.visited.contains(id) <==> reachable(objects, roots, id)
            &&& reachable_leaves(objects, roots).finite()
            &&& w.pages.len() == reachable_leaves(objects, roots).len()
        }),
{
    let none = Seq::<PDFObjectHeader>::empty();
    let w = walk(objects, limit, roots, none, Seq::empty())->Ok_0;
    lemma_walk(objects, limit, roots, none, Seq::empty());
    assert(w.visited.skip(0) =~= w.visited);
    assert forall|id: PDFObjectHeader| w.visited.contains(id) <==> reachable(
        objects,
        roots,
        id,
    ) by {
        if w.visited.contains(id) {
            let i = choose|i: int| 0 <= i < w.visited.len() && w.visited[i] == id;
            assert(reachable(objects, roots, w.visited[i]));
        }
        if reachable(objects, roots, id) {
            let path = choose|path: Seq<PDFObjectHeader>| connects(objects, roots, path, id);
            lemma_path_visited(objects, roots, w.visited, path, path.len() - 1);
        }
    }
    lemma_leaves_counted(objects, w.visited);
    assert(reachable_leaves(objects, roots) =~= Set::new(
        |id: PDFObjectHeader| w.visited.contains(id) && is_leaf_page(objects, id),
    ));
}

/// The pages of a document are as many as the leaves that are pages can be
/// reached from the children of the root of its page tree.
pub proof fn lemma_page_list_complete(
    objects: Map<PDFObjectHeader, ObjectView>,
    dictionary: Map<Seq<u8>, ValueView>,
)
    requires
        page_list(objects, dictionary) is Ok,
    ensures
        kid_ids(dictionary) is Ok,
        reachable_leaves(objects, kid_ids(dictionary)->Ok_0).finite(),
        page_list(objects, dictionary)->Ok_0.len() == reachable_leaves(
            objects,
            kid_ids(dictionary)->Ok_0,
        ).len(),
{
    let kids = kid_ids(dictionary)->Ok_0;
    lemma_pages_complete(objects, objects.dom().len(), kids.reverse());
    assert forall|id: PDFObjectHeader| reachable(objects, kids.reverse(), id) <==> reachable(
        objects,
        kids,
        id,
    ) by {
        if reachable(objects, kids.reverse(), id) {
            let path = choose|path: Seq<PDFObjectHeader>|
                connects(objects, kids.reverse(), path, id);
            let i = choose|i: int| 0 <= i < kids.reverse().len() && kids.reverse()[i] == path[0];
            assert(kids[kids.len() - 1 - i] == path[0]);
            assert(connects(objects, kids, path, id));
        }
        if reachable(objects, kids, id) {
            let path = choose|path: Seq<PDFObjectHeader>| connects(objects, kids, path, id);
            let i = choose|i: int| 0 <= i < kids.len() && kids[i] == path[0];
            assert(kids.reverse()[kids.len() - 1 - i] == path[0]);
            assert(connects(objects, kids.reverse(), path, id));
        }
    }
    assert(reachable_leaves(objects, kids.reverse()) =~= reachable_leaves(objects, kids));
}

/// Labels that are all different and all defined are no more than the
/// labels that are defined.
proof fn lemma_visited_bounded(
    objects: Map<PDFObjectHeader, ObjectView>,
    visited: Seq<PDFObjectHeader>,
)
    requires
        objects.dom().finite(),
        visited.no_duplicates(),
        forall|i: int| 0 <= i < visited.len() ==> objects.dom().contains(#[trigger] visited[i]),
    ensures
        visited.len() <= objects.dom().len(),
        forall|id: PDFObjectHeader|
            objects.dom().contains(id) && !visited.contains(id) ==> visited.len()
                < objects.dom().len(),
{
    visited.unique_seq_to_set();
    assert(visited.to_set().subset_of(objects.dom())) by {
        assert forall|id: PDFObjectHeader| visited.to_set().contains(id) implies objects.dom().contains(
            id,
        ) by {
            let i = choose|i: int| 0 <= i < visited.len() && visited[i] == id;
            assert(objects.dom().contains(visited[i]));
        }
    }
    vstd::set_lib::lemma_len_subset(visited.to_set(), objects.dom());
    assert forall|id: PDFObjectHeader|
        objects.dom().contains(id) && !visited.contains(id) implies visited.len()
            < objects.dom().len() by {
        let more = visited.to_set().insert(id);
        assert(more.subset_of(objects.dom()));
        vstd::set_lib::lemma_len_subset(more, objects.dom());
    }
}

/// The limit of a walk never decides: a walk that may visit as many nodes as
/// the document defines objects gives what a walk with any greater limit
/// gives.
pub proof fn lemma_limit_never_decides(
    objects: Map<PDFObjectHeader, ObjectView>,
    limit: nat,
    stack: Seq<PDFObjectHeader>,
    visited: Seq<PDFObjectHeader>,
    pages: Seq<PageView>,
)
    requires
        objects.dom().finite(),
        limit >= objects.dom().len(),
        visited.no_duplicates(),
        forall|i: int| 0 <= i < visited.len() ==> objects.dom().contains(#[trigger] visited[i]),
    ensures
        walk(objects, limit, stack, visited, pages) == walk(
            objects,
            objects.dom().len(),
            stack,
            visited,
            pages,
        ),
    decreases objects.dom().len() - visited.len(),
{
    lemma_visited_bounded(objects, visited);
    if stack.len() > 0 && !visited.contains(stack.last()) {
        let id = stack.last();
        match visit(objects, id, stack.drop_last(), pages) {
            Ok(next) => {
                assert(objects.dom().contains(id));
                let seen = visited.push(id);
                assert(seen.no_duplicates()) by {
                    assert forall|i: int, j: int|
                        0 <= i < seen.len() && 0 <= j < seen.len() && i != j implies seen[i]
                        != seen[j] by {
                        if i == visited.len() {
                            assert(visited[j] == seen[j]);
                        } else if j == visited.len() {
                            assert(visited[i] == seen[i]);
                        }
                    }
                }
                lemma_limit_never_decides(objects, limit, next.stack, seen, next.pages);
            },
            Err(e) => {},
        }
    }
}

} // verus!
